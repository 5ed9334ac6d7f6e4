//! Cosmetic rewriting of a solved expression back into bitwise form: the
//! exact linear encodings `a + b - (a & b)`, `a + b - 2 * (a & b)` and
//! `-1 - a` of `a | b`, `a ^ b` and `~a` are folded back, bottom-up, on the
//! working width. A sum that merely contains one of them is left alone.
use vstd::prelude::*;
use crate::expr::{Expr, Term, models, lemma_models_index, lemma_models_push, clone_expr};
use crate::order::expr_equal;
use crate::product::{scale_term, mapped_product_spec};
use crate::varint::{make_mask, mask_of};

verus! {

/// `t` without its single-operand n-ary wrappers.
pub open spec fn peel_spec(t: Term) -> Term
    decreases t,
{
    match t {
        Term::And(ts) => if ts.len() == 1 {
            peel_spec(ts[0])
        } else {
            t
        },
        Term::Or(ts) => if ts.len() == 1 {
            peel_spec(ts[0])
        } else {
            t
        },
        Term::Xor(ts) => if ts.len() == 1 {
            peel_spec(ts[0])
        } else {
            t
        },
        Term::Add(ts) => if ts.len() == 1 {
            peel_spec(ts[0])
        } else {
            t
        },
        Term::Mul(ts) => if ts.len() == 1 {
            peel_spec(ts[0])
        } else {
            t
        },
        _ => t,
    }
}

/// `-2` on the width of `mask`.
pub open spec fn minus_two(mask: u64) -> u64 {
    mask & mask.wrapping_sub(1)
}

/// The two indices of a three-term sum other than `i`, in order.
pub open spec fn others(i: int) -> (int, int) {
    if i == 0 {
        (1, 2)
    } else if i == 1 {
        (0, 2)
    } else {
        (0, 1)
    }
}

/// What the candidate conjunction at `i` of a three-term sum decides: none
/// when it is no scaled conjunction of two operands whose peeled forms are
/// the two other terms; else `a | b` for the coefficient `-1`, `a ^ b` for
/// `-2`, and no rewrite for any other.
pub open spec fn binary_at(terms: Seq<Term>, i: int, mask: u64) -> Option<Option<Term>> {
    match terms[i] {
        Term::Scale(coeff, inner) => match *inner {
            Term::And(ops) => if ops.len() == 2 {
                let a = peel_spec(ops[0]);
                let b = peel_spec(ops[1]);
                let (j, k) = others(i);
                let r0 = peel_spec(terms[j]);
                let r1 = peel_spec(terms[k]);
                if (r0 == a && r1 == b) || (r0 == b && r1 == a) {
                    if coeff & mask == mask {
                        Some(Some(Term::Or(seq![a, b])))
                    } else if coeff & mask == minus_two(mask) {
                        Some(Some(Term::Xor(seq![a, b])))
                    } else {
                        Some(None)
                    }
                } else {
                    None
                }
            } else {
                None
            },
            _ => None,
        },
        _ => None,
    }
}

/// The first decision of the candidates from `i` on.
pub open spec fn binary_from(terms: Seq<Term>, i: int, mask: u64) -> Option<Term>
    decreases 3 - i,
{
    if i >= 3 || i < 0 {
        None
    } else {
        match binary_at(terms, i, mask) {
            Some(r) => r,
            None => binary_from(terms, i + 1, mask),
        }
    }
}

/// `a + b - (a & b)` as `a | b` and `a + b - 2 * (a & b)` as `a ^ b`.
pub open spec fn as_binary_spec(t: Term, mask: u64) -> Option<Term> {
    match t {
        Term::Add(terms) => if terms.len() == 3 {
            binary_from(terms, 0, mask)
        } else {
            None
        },
        _ => None,
    }
}

/// What the candidate constant at `i` of a two-term sum gives: the
/// complement of the other term's operand when the constant is `-1` and the
/// other term is a scaling by `-1`.
pub open spec fn not_at(terms: Seq<Term>, i: int, mask: u64) -> Option<Term> {
    match peel_spec(terms[i]) {
        Term::Const(c) => if c & mask == mask {
            match peel_spec(terms[1 - i]) {
                Term::Scale(coeff, inner) => if coeff & mask == mask {
                    Some(Term::Not(Box::new(peel_spec(*inner))))
                } else {
                    None
                },
                _ => None,
            }
        } else {
            None
        },
        _ => None,
    }
}

/// `-1 - a` as `~a`.
pub open spec fn as_not_spec(t: Term, mask: u64) -> Option<Term> {
    match t {
        Term::Add(terms) => if terms.len() == 2 {
            match not_at(terms, 0, mask) {
                Some(r) => Some(r),
                None => not_at(terms, 1, mask),
            }
        } else {
            None
        },
        _ => None,
    }
}

/// `t` with its operands prettified.
pub open spec fn map_pretty(t: Term, mask: u64) -> Term
    decreases t, 0int,
{
    match t {
        Term::Var(_) => t,
        Term::Const(_) => t,
        Term::Not(x) => Term::Not(Box::new(prettify_spec(*x, mask))),
        Term::Scale(v, x) => scale_term(v, prettify_spec(*x, mask)),
        Term::And(ts) => Term::And(prettify_all(ts, mask)),
        Term::Or(ts) => Term::Or(prettify_all(ts, mask)),
        Term::Xor(ts) => Term::Xor(prettify_all(ts, mask)),
        Term::Add(ts) => Term::Add(prettify_all(ts, mask)),
        Term::Mul(ts) => mapped_product_spec(prettify_all(ts, mask)),
    }
}

/// `t` prettified: its operands first, then the node itself.
pub open spec fn prettify_spec(t: Term, mask: u64) -> Term
    decreases t, 1int,
{
    let m = map_pretty(t, mask);
    match as_binary_spec(m, mask) {
        Some(r) => r,
        None => match as_not_spec(m, mask) {
            Some(r) => r,
            None => m,
        },
    }
}

/// Every term of `ts` prettified.
pub open spec fn prettify_all(ts: Seq<Term>, mask: u64) -> Seq<Term>
    decreases ts, 2int,
{
    if ts.len() == 0 {
        Seq::empty()
    } else {
        prettify_all(ts.drop_last(), mask).push(prettify_spec(ts.last(), mask))
    }
}

/// `e` without its single-operand n-ary wrappers.
fn peel(e: &Expr) -> (r: &Expr)
    ensures
        r@ == peel_spec(e@),
    decreases e,
{
    proof {
        match e {
            Expr::And(inner) => lemma_models_index(inner@),
            Expr::Or(inner) => lemma_models_index(inner@),
            Expr::Xor(inner) => lemma_models_index(inner@),
            Expr::Add(inner) => lemma_models_index(inner@),
            Expr::Mul(inner) => lemma_models_index(inner@),
            _ => {},
        }
    }
    match e {
        Expr::And(inner) => if inner.len() == 1 {
            peel(&inner[0])
        } else {
            e
        },
        Expr::Or(inner) => if inner.len() == 1 {
            peel(&inner[0])
        } else {
            e
        },
        Expr::Xor(inner) => if inner.len() == 1 {
            peel(&inner[0])
        } else {
            e
        },
        Expr::Add(inner) => if inner.len() == 1 {
            peel(&inner[0])
        } else {
            e
        },
        Expr::Mul(inner) => if inner.len() == 1 {
            peel(&inner[0])
        } else {
            e
        },
        _ => e,
    }
}

/// Two operands as an n-ary operand list.
fn pair(a: Expr, b: Expr) -> (r: Vec<Expr>)
    ensures
        models(r@) == seq![a@, b@],
{
    let ghost (ma, mb) = (a@, b@);
    let v = vec![a, b];
    proof {
        lemma_models_index(v@);
        assert(models(v@) =~= seq![ma, mb]);
    }
    v
}

/// The decision of the candidate conjunction at `i`.
fn binary_at_exec(terms: &Vec<Expr>, i: usize, mask: u64) -> (r: Option<Option<Expr>>)
    requires
        terms.len() == 3,
        i < 3,
    ensures
        match binary_at(models(terms@), i as int, mask) {
            None => r is None,
            Some(None) => r == Some(None::<Expr>),
            Some(Some(t)) => r matches Some(Some(e)) && e@ == t,
        },
{
    proof {
        lemma_models_index(terms@);
        assert(models(terms@)[i as int] == terms@[i as int]@);
        assert(models(terms@)[0] == terms@[0]@);
        assert(models(terms@)[1] == terms@[1]@);
        assert(models(terms@)[2] == terms@[2]@);
    }
    let t = &terms[i];
    proof {
        assert(*t == terms@[i as int]);
        assert(t@ == models(terms@)[i as int]);
    }
    match t {
        Expr::Scale(coeff, inner) => match &**inner {
            Expr::And(operands) => {
                proof {
                    assert(t@ == Term::Scale(*coeff, Box::new(inner@)));
                    assert(inner@ == Term::And(models(operands@)));
                }
                proof {
                    lemma_models_index(operands@);
                }
                if operands.len() != 2 {
                    return None;
                }
                proof {
                    assert(models(operands@)[0] == operands@[0]@);
                    assert(models(operands@)[1] == operands@[1]@);
                }
                let a = peel(&operands[0]);
                let b = peel(&operands[1]);
                let (j, k): (usize, usize) = if i == 0 {
                    (1, 2)
                } else if i == 1 {
                    (0, 2)
                } else {
                    (0, 1)
                };
                let r0 = peel(&terms[j]);
                let r1 = peel(&terms[k]);
                let matches = (expr_equal(r0, a) && expr_equal(r1, b)) || (expr_equal(r0, b) && expr_equal(r1, a));
                if !matches {
                    return None;
                }
                let minus_one = mask;
                let minus_two_value = mask & mask.wrapping_sub(1);
                let c = *coeff & mask;
                if c == minus_one {
                    Some(Some(Expr::Or(pair(clone_expr(a), clone_expr(b)))))
                } else if c == minus_two_value {
                    Some(Some(Expr::Xor(pair(clone_expr(a), clone_expr(b)))))
                } else {
                    Some(None)
                }
            },
            _ => None,
        },
        _ => None,
    }
}

/// `a + b - (a & b)` as `a | b` and `a + b - 2 * (a & b)` as `a ^ b`.
fn as_binary_bitwise(e: &Expr, mask: u64) -> (r: Option<Expr>)
    ensures
        match as_binary_spec(e@, mask) {
            None => r is None,
            Some(t) => r matches Some(x) && x@ == t,
        },
{
    match e {
        Expr::Add(terms) => {
            proof {
                lemma_models_index(terms@);
            }
            if terms.len() != 3 {
                return None;
            }
            let mut i: usize = 0;
            while i < 3
                invariant
                    i <= 3,
                    terms.len() == 3,
                    e@ == Term::Add(models(terms@)),
                    models(terms@).len() == 3,
                    binary_from(models(terms@), 0, mask) == binary_from(models(terms@), i as int, mask),
                decreases 3 - i,
            {
                match binary_at_exec(terms, i, mask) {
                    Some(decision) => {
                        return decision;
                    },
                    None => {},
                }
                i += 1;
            }
            None
        },
        _ => None,
    }
}

/// The candidate constant at `i` of a two-term sum.
fn not_at_exec(terms: &Vec<Expr>, i: usize, mask: u64) -> (r: Option<Expr>)
    requires
        terms.len() == 2,
        i < 2,
    ensures
        match not_at(models(terms@), i as int, mask) {
            None => r is None,
            Some(t) => r matches Some(x) && x@ == t,
        },
{
    proof {
        lemma_models_index(terms@);
    }
    match peel(&terms[i]) {
        Expr::Const(c) => {
            if *c & mask != mask {
                return None;
            }
            match peel(&terms[1 - i]) {
                Expr::Scale(coeff, inner) => {
                    if *coeff & mask == mask {
                        Some(Expr::Not(Box::new(clone_expr(peel(inner)))))
                    } else {
                        None
                    }
                },
                _ => None,
            }
        },
        _ => None,
    }
}

/// `-1 - a` as `~a`.
fn as_not(e: &Expr, mask: u64) -> (r: Option<Expr>)
    ensures
        match as_not_spec(e@, mask) {
            None => r is None,
            Some(t) => r matches Some(x) && x@ == t,
        },
{
    match e {
        Expr::Add(terms) => {
            proof {
                lemma_models_index(terms@);
            }
            if terms.len() != 2 {
                return None;
            }
            match not_at_exec(terms, 0, mask) {
                Some(r) => Some(r),
                None => not_at_exec(terms, 1, mask),
            }
        },
        _ => None,
    }
}

/// `e` prettified on the width of `mask`.
fn prettify_masked(e: &Expr, mask: u64) -> (r: Expr)
    ensures
        r@ == prettify_spec(e@, mask),
    decreases e,
{
    let m = match e {
        Expr::Var(v) => Expr::Var(*v),
        Expr::Const(c) => Expr::Const(*c),
        Expr::Not(x) => Expr::Not(Box::new(prettify_masked(x, mask))),
        Expr::Scale(v, x) => Expr::scale(*v, prettify_masked(x, mask)),
        Expr::And(xs) => Expr::And(prettify_vec(xs, mask)),
        Expr::Or(xs) => Expr::Or(prettify_vec(xs, mask)),
        Expr::Xor(xs) => Expr::Xor(prettify_vec(xs, mask)),
        Expr::Add(xs) => Expr::Add(prettify_vec(xs, mask)),
        Expr::Mul(xs) => Expr::mapped_product(prettify_vec(xs, mask)),
    };
    proof {
        assert(m@ == map_pretty(e@, mask));
    }
    match as_binary_bitwise(&m, mask) {
        Some(r) => r,
        None => match as_not(&m, mask) {
            Some(r) => r,
            None => m,
        },
    }
}

/// Every operand prettified.
fn prettify_vec(xs: &Vec<Expr>, mask: u64) -> (r: Vec<Expr>)
    ensures
        models(r@) == prettify_all(models(xs@), mask),
    decreases xs,
{
    let mut out: Vec<Expr> = Vec::new();
    let mut i: usize = 0;
    proof {
        assert(models(xs@.take(0)) =~= Seq::<Term>::empty());
    }
    while i < xs.len()
        invariant
            i <= xs.len(),
            models(out@) == prettify_all(models(xs@.take(i as int)), mask),
        decreases xs.len() - i,
    {
        let p = prettify_masked(&xs[i], mask);
        let ghost before = out@;
        out.push(p);
        proof {
            lemma_models_push(before, p);
            assert(xs@.take(i + 1) =~= xs@.take(i as int).push(xs@[i as int]));
            lemma_models_push(xs@.take(i as int), xs@[i as int]);
            let t = models(xs@.take(i + 1));
            assert(t.drop_last() =~= models(xs@.take(i as int)));
            assert(t.last() == xs@[i as int]@);
        }
        i += 1;
    }
    proof {
        assert(xs@.take(i as int) =~= xs@);
    }
    out
}

/// Rewrites the exact linear encodings of `|`, `^` and `~` back into
/// bitwise nodes, bottom-up, on `n` bits.
pub fn prettify(e: Expr, n: u8) -> (r: Expr)
    ensures
        r@ == prettify_spec(e@, mask_of(n as nat)),
{
    prettify_masked(&e, make_mask(n))
}

} // verus!
