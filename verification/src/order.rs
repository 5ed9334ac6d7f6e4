//! The total order of expressions: variants in declaration order, then their
//! fields from left to right, operand lists lexicographically.
use vstd::prelude::*;
use crate::expr::{Expr, Term, models, lemma_models_index};

verus! {

/// `-1`, `0` or `1` as `x` is below, equal to or above `y`.
pub open spec fn sign(x: int, y: int) -> int {
    if x < y {
        -1
    } else if x == y {
        0
    } else {
        1
    }
}

/// The position of the variant of `t` in the declaration of `Expr`.
pub open spec fn rank(t: Term) -> int {
    match t {
        Term::Var(_) => 0,
        Term::Const(_) => 1,
        Term::Not(_) => 2,
        Term::Scale(_, _) => 3,
        Term::And(_) => 4,
        Term::Or(_) => 5,
        Term::Xor(_) => 6,
        Term::Add(_) => 7,
        Term::Mul(_) => 8,
    }
}

/// How `a` compares to `b`: `-1` below, `0` equal, `1` above.
pub open spec fn term_order(a: Term, b: Term) -> int
    decreases a,
{
    if rank(a) != rank(b) {
        sign(rank(a), rank(b))
    } else {
        match a {
            Term::Var(x) => match b {
                Term::Var(y) => sign(x as int, y as int),
                _ => 0,
            },
            Term::Const(x) => match b {
                Term::Const(y) => sign(x as int, y as int),
                _ => 0,
            },
            Term::Not(x) => match b {
                Term::Not(y) => term_order(*x, *y),
                _ => 0,
            },
            Term::Scale(c, x) => match b {
                Term::Scale(d, y) => if c != d {
                    sign(c as int, d as int)
                } else {
                    term_order(*x, *y)
                },
                _ => 0,
            },
            Term::And(xs) => match b {
                Term::And(ys) => seq_order(xs, ys),
                _ => 0,
            },
            Term::Or(xs) => match b {
                Term::Or(ys) => seq_order(xs, ys),
                _ => 0,
            },
            Term::Xor(xs) => match b {
                Term::Xor(ys) => seq_order(xs, ys),
                _ => 0,
            },
            Term::Add(xs) => match b {
                Term::Add(ys) => seq_order(xs, ys),
                _ => 0,
            },
            Term::Mul(xs) => match b {
                Term::Mul(ys) => seq_order(xs, ys),
                _ => 0,
            },
        }
    }
}

/// Lexicographic comparison of two operand lists; a proper prefix is below.
pub open spec fn seq_order(xs: Seq<Term>, ys: Seq<Term>) -> int
    decreases xs,
{
    if xs.len() == 0 {
        if ys.len() == 0 {
            0
        } else {
            -1
        }
    } else if ys.len() == 0 {
        1
    } else {
        let head = term_order(xs[0], ys[0]);
        if head != 0 {
            head
        } else {
            proof {
                assert(xs.drop_first() =~= xs.subrange(1, xs.len() as int));
            }
            seq_order(xs.drop_first(), ys.drop_first())
        }
    }
}

/// The order is antisymmetric, takes the values `-1`, `0`, `1`, and is
/// zero exactly on equal terms.
pub proof fn lemma_order_basics(a: Term, b: Term)
    ensures
        -1 <= term_order(a, b) <= 1,
        term_order(a, b) == -term_order(b, a),
        term_order(a, b) == 0 <==> a == b,
    decreases a,
{
    if rank(a) == rank(b) {
        match a {
            Term::Not(x) => match b {
                Term::Not(y) => lemma_order_basics(*x, *y),
                _ => {},
            },
            Term::Scale(c, x) => match b {
                Term::Scale(d, y) => lemma_order_basics(*x, *y),
                _ => {},
            },
            Term::And(xs) => match b {
                Term::And(ys) => lemma_seq_order_basics(xs, ys),
                _ => {},
            },
            Term::Or(xs) => match b {
                Term::Or(ys) => lemma_seq_order_basics(xs, ys),
                _ => {},
            },
            Term::Xor(xs) => match b {
                Term::Xor(ys) => lemma_seq_order_basics(xs, ys),
                _ => {},
            },
            Term::Add(xs) => match b {
                Term::Add(ys) => lemma_seq_order_basics(xs, ys),
                _ => {},
            },
            Term::Mul(xs) => match b {
                Term::Mul(ys) => lemma_seq_order_basics(xs, ys),
                _ => {},
            },
            _ => {},
        }
    }
}

/// The lexicographic order has the same basic properties.
pub proof fn lemma_seq_order_basics(xs: Seq<Term>, ys: Seq<Term>)
    ensures
        -1 <= seq_order(xs, ys) <= 1,
        seq_order(xs, ys) == -seq_order(ys, xs),
        seq_order(xs, ys) == 0 <==> xs == ys,
    decreases xs,
{
    if xs.len() > 0 && ys.len() > 0 {
        lemma_order_basics(xs[0], ys[0]);
        assert(xs.drop_first() =~= xs.subrange(1, xs.len() as int));
        lemma_seq_order_basics(xs.drop_first(), ys.drop_first());
        if xs[0] == ys[0] && xs.drop_first() == ys.drop_first() {
            assert(xs =~= ys) by {
                assert forall|i: int| 0 <= i < xs.len() implies xs[i] == ys[i] by {
                    if i > 0 {
                        assert(xs[i] == xs.drop_first()[i - 1]);
                        assert(ys[i] == ys.drop_first()[i - 1]);
                    }
                }
            }
        }
    } else if xs.len() == 0 && ys.len() > 0 {
        assert(xs != ys);
    } else if xs.len() > 0 && ys.len() == 0 {
        assert(xs != ys);
    } else {
        assert(xs =~= ys);
    }
}

/// The order is transitive.
pub proof fn lemma_order_transitive(a: Term, b: Term, c: Term)
    requires
        term_order(a, b) < 0,
        term_order(b, c) < 0,
    ensures
        term_order(a, c) < 0,
    decreases a,
{
    if rank(a) == rank(b) && rank(b) == rank(c) {
        match a {
            Term::Not(x) => match b {
                Term::Not(y) => match c {
                    Term::Not(z) => lemma_order_transitive(*x, *y, *z),
                    _ => {},
                },
                _ => {},
            },
            Term::Scale(p, x) => match b {
                Term::Scale(q, y) => match c {
                    Term::Scale(r, z) => {
                        if p == q && q == r {
                            lemma_order_transitive(*x, *y, *z);
                        }
                    },
                    _ => {},
                },
                _ => {},
            },
            Term::And(xs) => match b {
                Term::And(ys) => match c {
                    Term::And(zs) => lemma_seq_order_transitive(xs, ys, zs),
                    _ => {},
                },
                _ => {},
            },
            Term::Or(xs) => match b {
                Term::Or(ys) => match c {
                    Term::Or(zs) => lemma_seq_order_transitive(xs, ys, zs),
                    _ => {},
                },
                _ => {},
            },
            Term::Xor(xs) => match b {
                Term::Xor(ys) => match c {
                    Term::Xor(zs) => lemma_seq_order_transitive(xs, ys, zs),
                    _ => {},
                },
                _ => {},
            },
            Term::Add(xs) => match b {
                Term::Add(ys) => match c {
                    Term::Add(zs) => lemma_seq_order_transitive(xs, ys, zs),
                    _ => {},
                },
                _ => {},
            },
            Term::Mul(xs) => match b {
                Term::Mul(ys) => match c {
                    Term::Mul(zs) => lemma_seq_order_transitive(xs, ys, zs),
                    _ => {},
                },
                _ => {},
            },
            _ => {},
        }
    }
}

/// The lexicographic order is transitive.
pub proof fn lemma_seq_order_transitive(xs: Seq<Term>, ys: Seq<Term>, zs: Seq<Term>)
    requires
        seq_order(xs, ys) < 0,
        seq_order(ys, zs) < 0,
    ensures
        seq_order(xs, zs) < 0,
    decreases xs,
{
    if xs.len() > 0 && ys.len() > 0 && zs.len() > 0 {
        lemma_order_basics(xs[0], ys[0]);
        lemma_order_basics(ys[0], zs[0]);
        lemma_order_basics(xs[0], zs[0]);
        assert(xs.drop_first() =~= xs.subrange(1, xs.len() as int));
        let hxy = term_order(xs[0], ys[0]);
        let hyz = term_order(ys[0], zs[0]);
        if hxy < 0 && hyz < 0 {
            lemma_order_transitive(xs[0], ys[0], zs[0]);
        } else if hxy == 0 && hyz == 0 {
            lemma_seq_order_transitive(xs.drop_first(), ys.drop_first(), zs.drop_first());
        }
    }
}

/// Compares two expressions in the order of their models.
pub fn expr_order(a: &Expr, b: &Expr) -> (r: i8)
    ensures
        r == term_order(a@, b@),
    decreases a,
{
    let ra = rank_of(a);
    let rb = rank_of(b);
    if ra != rb {
        return if ra < rb {
            -1
        } else {
            1
        };
    }
    match a {
        Expr::Var(x) => match b {
            Expr::Var(y) => sign_of_u64(x.0 as u64, y.0 as u64),
            _ => 0,
        },
        Expr::Const(x) => match b {
            Expr::Const(y) => sign_of_u64(*x, *y),
            _ => 0,
        },
        Expr::Not(x) => match b {
            Expr::Not(y) => expr_order(x, y),
            _ => 0,
        },
        Expr::Scale(c, x) => match b {
            Expr::Scale(d, y) => if *c != *d {
                sign_of_u64(*c, *d)
            } else {
                expr_order(x, y)
            },
            _ => 0,
        },
        Expr::And(xs) => match b {
            Expr::And(ys) => exprs_order(xs, ys),
            _ => 0,
        },
        Expr::Or(xs) => match b {
            Expr::Or(ys) => exprs_order(xs, ys),
            _ => 0,
        },
        Expr::Xor(xs) => match b {
            Expr::Xor(ys) => exprs_order(xs, ys),
            _ => 0,
        },
        Expr::Add(xs) => match b {
            Expr::Add(ys) => exprs_order(xs, ys),
            _ => 0,
        },
        Expr::Mul(xs) => match b {
            Expr::Mul(ys) => exprs_order(xs, ys),
            _ => 0,
        },
    }
}

/// Whether two expressions are equal.
pub fn expr_equal(a: &Expr, b: &Expr) -> (r: bool)
    ensures
        r == (a@ == b@),
{
    proof {
        lemma_order_basics(a@, b@);
    }
    expr_order(a, b) == 0
}

/// The position of the variant of `e`.
fn rank_of(e: &Expr) -> (r: u8)
    ensures
        r == rank(e@),
{
    match e {
        Expr::Var(_) => 0,
        Expr::Const(_) => 1,
        Expr::Not(_) => 2,
        Expr::Scale(_, _) => 3,
        Expr::And(_) => 4,
        Expr::Or(_) => 5,
        Expr::Xor(_) => 6,
        Expr::Add(_) => 7,
        Expr::Mul(_) => 8,
    }
}

/// `sign` on machine words.
fn sign_of_u64(x: u64, y: u64) -> (r: i8)
    ensures
        r == sign(x as int, y as int),
{
    if x < y {
        -1
    } else if x == y {
        0
    } else {
        1
    }
}

/// Lexicographic comparison of two operand lists.
fn exprs_order(xs: &Vec<Expr>, ys: &Vec<Expr>) -> (r: i8)
    ensures
        r == seq_order(models(xs@), models(ys@)),
    decreases xs,
{
    proof {
        lemma_models_index(xs@);
        lemma_models_index(ys@);
    }
    let ghost mx = models(xs@);
    let ghost my = models(ys@);
    let mut i: usize = 0;
    proof {
        assert(mx.skip(0) =~= mx);
        assert(my.skip(0) =~= my);
    }
    while i < xs.len() && i < ys.len()
        invariant
            i <= xs.len(),
            i <= ys.len(),
            mx == models(xs@),
            my == models(ys@),
            mx.len() == xs.len(),
            my.len() == ys.len(),
            forall|k: int| 0 <= k < xs.len() ==> #[trigger] mx[k] == xs@[k]@,
            forall|k: int| 0 <= k < ys.len() ==> #[trigger] my[k] == ys@[k]@,
            seq_order(mx, my) == seq_order(mx.skip(i as int), my.skip(i as int)),
        decreases xs.len() - i,
    {
        let ghost sx = mx.skip(i as int);
        let ghost sy = my.skip(i as int);
        let head = expr_order(&xs[i], &ys[i]);
        proof {
            assert(sx[0] == mx[i as int]);
            assert(sy[0] == my[i as int]);
            assert(sx.drop_first() =~= mx.skip(i + 1));
            assert(sy.drop_first() =~= my.skip(i + 1));
            assert(sx.len() > 0 && sy.len() > 0);
            assert(head != 0 ==> seq_order(sx, sy) == head);
        }
        if head != 0 {
            return head;
        }
        i += 1;
    }
    proof {
        assert(mx.skip(i as int).len() == xs.len() - i);
        assert(my.skip(i as int).len() == ys.len() - i);
    }
    if i < xs.len() {
        1
    } else if i < ys.len() {
        -1
    } else {
        0
    }
}

} // verus!
