//! Canonical arithmetic products: constants and scalings are pulled out of a
//! product into one outer coefficient, and nested products are flattened.
use vstd::prelude::*;
use crate::expr::{
    Expr, Op, Term, apply, eval, eval_fold, lemma_fold_push, lemma_models_index, lemma_models_push,
    lemma_sizes_concat, models, size, sizes, unit,
};
use crate::semantics::{
    lemma_apply_assoc, lemma_apply_comm, lemma_apply_unit, lemma_fold_concat, lemma_fold_permutation,
    lemma_fold_single, lemma_word,
};
use crate::varint::word;

verus! {

/// `c` times `t`, with the coefficients 0 and 1 folded away.
pub open spec fn scale_term(c: u64, t: Term) -> Term {
    if c == 0 {
        Term::Const(0)
    } else if c == 1 {
        t
    } else {
        Term::Scale(c, Box::new(t))
    }
}

/// The coefficient and the factors gathered from the stack `pending`,
/// taking terms from its top: a constant multiplies the coefficient, a
/// scaling multiplies it and puts its operand back, a product puts its
/// factors back, and any other term is a factor.
pub open spec fn product_loop(pending: Seq<Term>, c: u64, factors: Seq<Term>) -> (u64, Seq<Term>)
    decreases sizes(pending),
{
    if pending.len() == 0 {
        (c, factors)
    } else {
        let rest = pending.drop_last();
        let top = pending.last();
        proof {
            assert(rest.push(top) =~= pending);
            lemma_fold_push(Op::Add, rest, top, Seq::empty());
        }
        match top {
            Term::Const(v) => product_loop(rest, c.wrapping_mul(v), factors),
            Term::Scale(v, x) => {
                proof {
                    lemma_fold_push(Op::Add, rest, *x, Seq::empty());
                }
                product_loop(rest.push(*x), c.wrapping_mul(v), factors)
            },
            Term::Mul(cs) => {
                proof {
                    lemma_sizes_concat(rest, cs);
                }
                product_loop(rest + cs, c, factors)
            },
            _ => product_loop(rest, c, factors.push(top)),
        }
    }
}

/// The canonical product of `terms`: zero when the coefficient is zero,
/// else the coefficient times the factors in their original order (a lone
/// factor without a product node, none at all as the constant).
pub open spec fn product_spec(terms: Seq<Term>) -> Term {
    let (c, f) = product_loop(terms, 1, Seq::empty());
    let g = f.reverse();
    if c == 0 {
        Term::Const(0)
    } else if g.len() == 0 {
        Term::Const(c)
    } else if g.len() == 1 {
        scale_term(c, g[0])
    } else {
        scale_term(c, Term::Mul(g))
    }
}

/// Every product of `t` keeps constants and scalings out of its factors.
pub open spec fn products_canonical(t: Term) -> bool
    decreases t,
{
    match t {
        Term::Var(_) => true,
        Term::Const(_) => true,
        Term::Not(x) => products_canonical(*x),
        Term::Scale(_, x) => products_canonical(*x),
        Term::Mul(ts) => factors_canonical_spec(ts),
        Term::And(ts) => all_canonical_spec(ts),
        Term::Or(ts) => all_canonical_spec(ts),
        Term::Xor(ts) => all_canonical_spec(ts),
        Term::Add(ts) => all_canonical_spec(ts),
    }
}

/// Every term of `ts` has canonical products.
pub open spec fn all_canonical_spec(ts: Seq<Term>) -> bool
    decreases ts,
{
    forall|i: int| 0 <= i < ts.len() ==> products_canonical(#[trigger] ts[i])
}

/// Every factor of `ts` is neither a constant nor a scaling and has
/// canonical products.
pub open spec fn factors_canonical_spec(ts: Seq<Term>) -> bool
    decreases ts,
{
    forall|i: int| 0 <= i < ts.len() ==> !(#[trigger] ts[i] is Const) && !(ts[i] is Scale) && products_canonical(ts[i])
}


/// The product of the values of `ts` under `vars`, as a word.
spec fn fold_mul(ts: Seq<Term>, vars: Seq<u64>) -> u64 {
    eval_fold(Op::Mul, ts, vars)
}

/// Multiplication of words.
spec fn wmul(a: u64, b: u64) -> u64 {
    apply(Op::Mul, a, b)
}

/// What the gathering loop keeps: the coefficient times the product of the
/// factors it ends with is the coefficient it starts with times the product
/// of everything still pending and gathered.
proof fn lemma_product_loop(pending: Seq<Term>, c: u64, factors: Seq<Term>, vars: Seq<u64>)
    ensures
        wmul(product_loop(pending, c, factors).0, fold_mul(product_loop(pending, c, factors).1, vars))
            == wmul(c, wmul(fold_mul(pending, vars), fold_mul(factors, vars))),
    decreases sizes(pending),
{
    let f = fold_mul(factors, vars);
    if pending.len() == 0 {
        lemma_apply_unit(Op::Mul, f);
    } else {
        let rest = pending.drop_last();
        let top = pending.last();
        let r = fold_mul(rest, vars);
        assert(rest.push(top) =~= pending);
        lemma_fold_push(Op::Mul, rest, top, vars);
        lemma_fold_push(Op::Add, rest, top, Seq::empty());
        match top {
            Term::Const(v) => {
                lemma_word(c * v);
                lemma_product_loop(rest, c.wrapping_mul(v), factors, vars);
                lemma_apply_assoc(Op::Mul, c, v, wmul(r, f));
                lemma_apply_assoc(Op::Mul, v, r, f);
                lemma_apply_comm(Op::Mul, v, r);
            },
            Term::Scale(v, x) => {
                let ex = eval(*x, vars);
                lemma_word(c * v);
                lemma_fold_push(Op::Mul, rest, *x, vars);
                lemma_fold_push(Op::Add, rest, *x, Seq::empty());
                lemma_product_loop(rest.push(*x), c.wrapping_mul(v), factors, vars);
                lemma_apply_assoc(Op::Mul, c, v, wmul(wmul(r, ex), f));
                lemma_apply_assoc(Op::Mul, v, wmul(r, ex), f);
                lemma_apply_assoc(Op::Mul, v, r, ex);
                lemma_apply_comm(Op::Mul, v, r);
                lemma_apply_assoc(Op::Mul, r, v, ex);
            },
            Term::Mul(cs) => {
                lemma_sizes_concat(rest, cs);
                lemma_fold_concat(Op::Mul, rest, cs, vars);
                lemma_product_loop(rest + cs, c, factors, vars);
            },
            _ => {
                let et = eval(top, vars);
                lemma_fold_push(Op::Mul, factors, top, vars);
                lemma_product_loop(rest, c, factors.push(top), vars);
                lemma_apply_comm(Op::Mul, f, et);
                lemma_apply_assoc(Op::Mul, r, et, f);
            },
        }
    }
}

/// The canonical product has the value of the plain product: under every
/// assignment, `product_spec(ts)` evaluates to the product of the values of
/// `ts` modulo `2^64`.
pub proof fn lemma_product_sound(ts: Seq<Term>, vars: Seq<u64>)
    ensures
        eval(product_spec(ts), vars) == eval(Term::Mul(ts), vars),
{
    let (c, f) = product_loop(ts, 1, Seq::empty());
    let g = f.reverse();
    let p = fold_mul(ts, vars);
    lemma_product_loop(ts, 1, Seq::empty(), vars);
    lemma_apply_unit(Op::Mul, p);
    lemma_apply_unit(Op::Mul, wmul(p, 1));
    assert(wmul(c, fold_mul(f, vars)) == p);
    f.lemma_reverse_to_multiset();
    lemma_fold_permutation(Op::Mul, g, f, vars);
    let pg = fold_mul(g, vars);
    lemma_word(c * pg);
    assert(wmul(c, pg) == p);
    if c == 0 {
        assert(wmul(c, pg) == 0);
    } else if g.len() == 0 {
        lemma_apply_unit(Op::Mul, c);
    } else if g.len() == 1 {
        assert(g =~= seq![g[0]]);
        lemma_fold_single(Op::Mul, g[0], vars);
        lemma_word(pg as int);
        assert(eval(product_spec(ts), vars) == wmul(c, pg));
    } else {
        lemma_word(pg as int);
        let m = Term::Mul(g);
        assert(product_spec(ts) == scale_term(c, m));
        assert(eval(m, vars) == pg);
        lemma_word(c * pg);
        if c != 1 {
            assert(eval(Term::Scale(c, Box::new(m)), vars) == word(c * pg));
        }
    }
}

/// The gathering loop keeps pending terms canonical and gathers only
/// canonical factors that are neither constants nor scalings.
proof fn lemma_product_loop_canonical(pending: Seq<Term>, c: u64, factors: Seq<Term>)
    requires
        all_canonical_spec(pending),
        factors_canonical_spec(factors),
    ensures
        factors_canonical_spec(product_loop(pending, c, factors).1),
    decreases sizes(pending),
{
    if pending.len() > 0 {
        let rest = pending.drop_last();
        let top = pending.last();
        assert(rest.push(top) =~= pending);
        lemma_fold_push(Op::Add, rest, top, Seq::empty());
        assert(products_canonical(pending[pending.len() - 1]));
        assert(all_canonical_spec(rest)) by {
            assert forall|i: int| 0 <= i < rest.len() implies products_canonical(#[trigger] rest[i]) by {
                assert(rest[i] == pending[i]);
            }
        }
        match top {
            Term::Const(v) => {
                lemma_product_loop_canonical(rest, c.wrapping_mul(v), factors);
            },
            Term::Scale(v, x) => {
                lemma_fold_push(Op::Add, rest, *x, Seq::empty());
                let p2 = rest.push(*x);
                assert(all_canonical_spec(p2)) by {
                    assert forall|i: int| 0 <= i < p2.len() implies products_canonical(#[trigger] p2[i]) by {
                        if i < rest.len() {
                            assert(p2[i] == rest[i]);
                        }
                    }
                }
                lemma_product_loop_canonical(p2, c.wrapping_mul(v), factors);
            },
            Term::Mul(cs) => {
                lemma_sizes_concat(rest, cs);
                assert(factors_canonical_spec(cs));
                let p2 = rest + cs;
                assert(all_canonical_spec(p2)) by {
                    assert forall|i: int| 0 <= i < p2.len() implies products_canonical(#[trigger] p2[i]) by {
                        if i < rest.len() {
                            assert(p2[i] == rest[i]);
                        } else {
                            let j = i - rest.len();
                            assert(p2[i] == cs[j]);
                            assert(products_canonical(cs[j]));
                        }
                    }
                }
                lemma_product_loop_canonical(p2, c, factors);
            },
            _ => {
                let f2 = factors.push(top);
                assert(factors_canonical_spec(f2)) by {
                    assert forall|i: int| 0 <= i < f2.len() implies !(#[trigger] f2[i] is Const) && !(f2[i] is Scale)
                        && products_canonical(f2[i]) by {
                        if i < factors.len() {
                            assert(f2[i] == factors[i]);
                        }
                    }
                }
                lemma_product_loop_canonical(rest, c, f2);
            },
        }
    }
}

/// Products built from terms with canonical products have canonical
/// products: constants and scalings end up in one outer coefficient, never
/// among the factors of a product.
pub proof fn lemma_product_canonical(ts: Seq<Term>)
    requires
        all_canonical_spec(ts),
    ensures
        products_canonical(product_spec(ts)),
{
    let (c, f) = product_loop(ts, 1, Seq::empty());
    lemma_product_loop_canonical(ts, 1, Seq::empty());
    let g = f.reverse();
    assert(factors_canonical_spec(g)) by {
        assert forall|i: int| 0 <= i < g.len() implies !(#[trigger] g[i] is Const) && !(g[i] is Scale)
            && products_canonical(g[i]) by {
            assert(g[i] == f[f.len() - 1 - i]);
        }
    }
    if c != 0 && g.len() == 1 {
        assert(products_canonical(g[0]));
        assert(product_spec(ts) == scale_term(c, g[0]));
    } else if c != 0 && g.len() > 1 {
        assert(products_canonical(Term::Mul(g)));
        assert(product_spec(ts) == scale_term(c, Term::Mul(g)));
    }
}

impl Expr {
    /// Builds the canonical arithmetic product of `terms`.
    pub fn product(terms: Vec<Expr>) -> (r: Expr)
        ensures
            r@ == product_spec(models(terms@)),
    {
        let ghost start = models(terms@);
        let mut coefficient: u64 = 1;
        let mut factors: Vec<Expr> = Vec::new();
        let mut pending = terms;
        proof {
            assert(models(factors@) =~= Seq::<Term>::empty());
        }
        while pending.len() > 0
            invariant
                product_loop(start, 1, Seq::empty()) == product_loop(models(pending@), coefficient, models(factors@)),
            decreases sizes(models(pending@)),
        {
            let ghost before = pending@;
            let term = pending.pop().unwrap();
            proof {
                assert(before =~= pending@.push(term));
                lemma_models_push(pending@, term);
                assert(models(before).drop_last() =~= models(pending@));
                assert(models(before).last() == term@);
                lemma_fold_push(Op::Add, models(pending@), term@, Seq::empty());
            }
            match term {
                Expr::Const(value) => {
                    coefficient = coefficient.wrapping_mul(value);
                },
                Expr::Scale(value, child) => {
                    coefficient = coefficient.wrapping_mul(value);
                    let ghost p = pending@;
                    pending.push(*child);
                    proof {
                        lemma_models_push(p, *child);
                        lemma_fold_push(Op::Add, models(p), child@, Seq::empty());
                    }
                },
                Expr::Mul(children) => {
                    let mut children = children;
                    let ghost p = pending@;
                    let ghost cs = children@;
                    pending.append(&mut children);
                    proof {
                        crate::expr::lemma_models_concat(p, cs);
                        lemma_sizes_concat(models(p), models(cs));
                    }
                },
                factor => {
                    let ghost f = factors@;
                    let ghost t = factor@;
                    factors.push(factor);
                    proof {
                        lemma_models_push(f, factors@.last());
                        assert(factors@ =~= f.push(factors@.last()));
                    }
                },
            }
        }
        if coefficient == 0 {
            return Expr::zero();
        }
        let ghost fs = models(factors@);
        proof {
            lemma_models_index(factors@);
        }
        let mut reversed: Vec<Expr> = Vec::new();
        proof {
            assert(models(reversed@) =~= fs.subrange(fs.len() as int, fs.len() as int).reverse());
            assert(fs.subrange(0, factors.len() as int) =~= fs);
        }
        while factors.len() > 0
            invariant
                fs.len() >= factors.len(),
                models(factors@) == fs.subrange(0, factors.len() as int),
                models(reversed@) == fs.subrange(factors.len() as int, fs.len() as int).reverse(),
            decreases factors.len(),
        {
            let ghost k = factors.len();
            let ghost before = factors@;
            let x = factors.pop().unwrap();
            let ghost r0 = reversed@;
            reversed.push(x);
            proof {
                assert(before =~= factors@.push(x));
                lemma_models_push(factors@, x);
                assert(models(before) == models(factors@).push(x@));
                assert(models(factors@) =~= models(before).drop_last());
                assert(fs.subrange(0, k as int).drop_last() =~= fs.subrange(0, k - 1));
                assert(models(factors@) =~= fs.subrange(0, k - 1));
                assert(x@ == fs.subrange(0, k as int).last());
                assert(x@ == fs[k - 1]);
                lemma_models_push(r0, x);
                assert(fs.subrange(k - 1, fs.len() as int).reverse() =~= fs.subrange(k as int, fs.len() as int).reverse().push(
                    fs[k - 1],
                ));
            }
        }
        proof {
            assert(fs.subrange(0, fs.len() as int).reverse() =~= fs.reverse());
            assert(product_loop(models(pending@), coefficient, fs) == (coefficient, fs));
            lemma_models_index(reversed@);
        }
        let ghost g = fs.reverse();
        let n = reversed.len();
        if n == 0 {
            Expr::Const(coefficient)
        } else if n == 1 {
            let ghost before = reversed@;
            let only = reversed.pop().unwrap();
            proof {
                assert(before =~= reversed@.push(only));
                assert(before[0] == only);
                assert(g[0] == models(before)[0]);
            }
            Expr::scale(coefficient, only)
        } else {
            Expr::scale(coefficient, Expr::Mul(reversed))
        }
    }

    /// The product of `self` and `rhs`, canonical.
    pub fn mul(self, rhs: Expr) -> (r: Expr)
        ensures
            r@ == product_spec(seq![self@, rhs@]),
    {
        let ghost (a, b) = (self@, rhs@);
        let v = vec![self, rhs];
        proof {
            lemma_models_index(v@);
            assert(models(v@) =~= seq![a, b]);
        }
        Expr::product(v)
    }

    /// Whether every product keeps constants and scalings out of its
    /// factors.
    pub fn products_are_canonical(&self) -> (r: bool)
        ensures
            r == products_canonical(self@),
        decreases self,
    {
        match self {
            Expr::Var(_) => true,
            Expr::Const(_) => true,
            Expr::Not(child) => child.products_are_canonical(),
            Expr::Scale(_, child) => child.products_are_canonical(),
            Expr::Mul(children) => factors_canonical(children),
            Expr::And(children) => all_canonical(children),
            Expr::Or(children) => all_canonical(children),
            Expr::Xor(children) => all_canonical(children),
            Expr::Add(children) => all_canonical(children),
        }
    }
}

/// Whether every operand's products are canonical.
fn all_canonical(children: &Vec<Expr>) -> (r: bool)
    ensures
        r == all_canonical_spec(models(children@)),
    decreases children,
{
    proof {
        lemma_models_index(children@);
    }
    let mut i: usize = 0;
    while i < children.len()
        invariant
            i <= children.len(),
            models(children@).len() == children.len(),
            forall|k: int| 0 <= k < children.len() ==> #[trigger] models(children@)[k] == children@[k]@,
            forall|k: int| 0 <= k < i ==> products_canonical(#[trigger] models(children@)[k]),
        decreases children.len() - i,
    {
        if !children[i].products_are_canonical() {
            proof {
                assert(models(children@)[i as int] == children@[i as int]@);
            }
            return false;
        }
        i += 1;
    }
    true
}

/// Whether every factor is neither a constant nor a scaling and has
/// canonical products.
fn factors_canonical(children: &Vec<Expr>) -> (r: bool)
    ensures
        r == factors_canonical_spec(models(children@)),
    decreases children,
{
    proof {
        lemma_models_index(children@);
    }
    let mut i: usize = 0;
    while i < children.len()
        invariant
            i <= children.len(),
            models(children@).len() == children.len(),
            forall|k: int| 0 <= k < children.len() ==> #[trigger] models(children@)[k] == children@[k]@,
            forall|k: int|
                0 <= k < i ==> !(#[trigger] models(children@)[k] is Const) && !(models(children@)[k] is Scale)
                    && products_canonical(models(children@)[k]),
        decreases children.len() - i,
    {
        let c = &children[i];
        let ok = match c {
            Expr::Const(_) => false,
            Expr::Scale(_, _) => false,
            _ => {
                proof {
                    assert(!(c@ is Const) && !(c@ is Scale));
                }
                c.products_are_canonical()
            },
        };
        if !ok {
            proof {
                assert(models(children@)[i as int] == children@[i as int]@);
            }
            return false;
        }
        i += 1;
    }
    true
}


/// A product rebuilt from mapped factors: a lone factor that is neither a
/// constant nor a scaling stays a product of one; anything else is made
/// canonical.
pub open spec fn mapped_product_spec(ts: Seq<Term>) -> Term {
    if ts.len() == 1 && !(ts[0] is Const) && !(ts[0] is Scale) {
        Term::Mul(ts)
    } else {
        product_spec(ts)
    }
}

impl Expr {
    /// Rebuilds a product from mapped factors.
    pub fn mapped_product(terms: Vec<Expr>) -> (r: Expr)
        ensures
            r@ == mapped_product_spec(models(terms@)),
    {
        proof {
            lemma_models_index(terms@);
        }
        if terms.len() == 1 {
            let single = match &terms[0] {
                Expr::Const(_) => false,
                Expr::Scale(_, _) => false,
                _ => true,
            };
            if single {
                return Expr::Mul(terms);
            }
        }
        Expr::product(terms)
    }
}

} // verus!
