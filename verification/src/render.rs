//! Rendering expressions as text: infix operators with the fewest
//! parentheses the precedences need, constants with their best sign, and
//! sums written with subtractions.
use vstd::prelude::*;
use crate::expr::{lemma_models_index, model, models, Expr, Term, VarId};
use crate::text::{dec_chars, push_all, push_char, push_decimal};
use crate::varint::{mask_of, repr_chars, signed_of, VarInt};

verus! {

/// How tightly a node binds: lower binds tighter. A collection of one
/// operand binds as its operand does.
pub open spec fn prec(t: Term) -> int
    decreases t,
{
    match t {
        Term::Var(_) => 0,
        Term::Const(_) => 0,
        Term::Not(_) => 2,
        Term::Scale(_, _) => 3,
        Term::Mul(ts) => if ts.len() == 1 {
            prec(ts[0])
        } else {
            3
        },
        Term::Add(ts) => if ts.len() == 1 {
            prec(ts[0])
        } else {
            4
        },
        Term::And(ts) => if ts.len() == 1 {
            prec(ts[0])
        } else {
            8
        },
        Term::Xor(ts) => if ts.len() == 1 {
            prec(ts[0])
        } else {
            9
        },
        Term::Or(ts) => if ts.len() == 1 {
            prec(ts[0])
        } else {
            10
        },
    }
}

/// `s`, the text of `child`, in parentheses when `child` binds more loosely
/// than its parent.
pub open spec fn paren(child: Term, parent_prec: int, s: Seq<char>) -> Seq<char> {
    if parent_prec < prec(child) {
        seq!['('] + s + seq![')']
    } else {
        s
    }
}

/// The text of the operator `op` (0: not, 1: and, 2: or, 3: xor, 4: product).
pub open spec fn op_text(op: int, latex: bool) -> Seq<char> {
    if op == 0 {
        if latex {
            seq!['\\', 'n', 'e', 'g']
        } else {
            seq!['~']
        }
    } else if op == 1 {
        if latex {
            seq!['\\', 'l', 'a', 'n', 'd']
        } else {
            seq!['&']
        }
    } else if op == 2 {
        if latex {
            seq!['\\', 'l', 'o', 'r']
        } else {
            seq!['|']
        }
    } else if op == 3 {
        if latex {
            seq!['\\', 'o', 'p', 'l', 'u', 's']
        } else {
            seq!['^']
        }
    } else {
        if latex {
            seq!['\\', 'c', 'd', 'o', 't']
        } else {
            seq!['*']
        }
    }
}

/// The sign bit at width `n`.
pub open spec fn sign_bit(n: u8) -> u64 {
    1u64 << ((n - 1) as u64)
}

/// A constant or a scaled term of a sum reads as a subtraction when its
/// coefficient is negative at width `n`.
pub open spec fn subtracted(e: Term, n: u8, mask: u64) -> bool {
    match e {
        Term::Const(c) => c & mask & sign_bit(n) != 0,
        Term::Scale(c, _) => c & mask & sign_bit(n) != 0,
        _ => false,
    }
}

/// The text of `t` at width `n`.
pub open spec fn render(t: Term, n: u8, mask: u64, hex: bool, latex: bool) -> Seq<char>
    decreases t,
{
    match t {
        Term::Var(v) => if latex {
            seq!['v', '_', '{'] + dec_chars(v as nat) + seq!['}']
        } else {
            seq!['v'] + dec_chars(v as nat)
        },
        Term::Const(c) => repr_chars(c, n, mask, hex, latex),
        Term::Scale(c, x) => repr_chars(c, n, mask, hex, latex) + seq![' '] + op_text(4, latex) + seq![' '] + paren(
            *x,
            3,
            render(*x, n, mask, hex, latex),
        ),
        Term::Not(x) => op_text(0, latex) + seq![' '] + paren(*x, 2, render(*x, n, mask, hex, latex)),
        Term::Add(ts) => if ts.len() == 1 {
            render(ts[0], n, mask, hex, latex)
        } else {
            render_sum(ts, n, mask, hex, latex)
        },
        Term::Mul(ts) => if ts.len() == 1 {
            render(ts[0], n, mask, hex, latex)
        } else {
            render_join(ts, 3, 4, n, mask, hex, latex)
        },
        Term::And(ts) => if ts.len() == 1 {
            render(ts[0], n, mask, hex, latex)
        } else {
            render_join(ts, 8, 1, n, mask, hex, latex)
        },
        Term::Xor(ts) => if ts.len() == 1 {
            render(ts[0], n, mask, hex, latex)
        } else {
            render_join(ts, 9, 3, n, mask, hex, latex)
        },
        Term::Or(ts) => if ts.len() == 1 {
            render(ts[0], n, mask, hex, latex)
        } else {
            render_join(ts, 10, 2, n, mask, hex, latex)
        },
    }
}

/// The operands `ts` of a node binding at `parent_prec`, joined by the
/// operator `op` with a space on each side.
pub open spec fn render_join(
    ts: Seq<Term>,
    parent_prec: int,
    op: int,
    n: u8,
    mask: u64,
    hex: bool,
    latex: bool,
) -> Seq<char>
    decreases ts,
{
    if ts.len() == 0 {
        Seq::empty()
    } else {
        let item = paren(ts.last(), parent_prec, render(ts.last(), n, mask, hex, latex));
        if ts.len() == 1 {
            item
        } else {
            render_join(ts.drop_last(), parent_prec, op, n, mask, hex, latex) + seq![' '] + op_text(op, latex)
                + seq![' '] + item
        }
    }
}

/// The magnitude of a subtracted term of a sum: the negated constant, or the
/// scaled term with its coefficient negated (a coefficient of one left out).
pub open spec fn negated_item(e: Term, n: u8, mask: u64, hex: bool, latex: bool) -> Seq<char>
    decreases e,
{
    match e {
        Term::Const(c) => repr_chars(0u64.wrapping_sub(c), n, mask, hex, latex),
        Term::Scale(c, x) => {
            let m = 0u64.wrapping_sub(c) & mask;
            let inner = paren(*x, 3, render(*x, n, mask, hex, latex));
            if m == 1 {
                inner
            } else {
                repr_chars(m, n, mask, hex, latex) + seq![' '] + op_text(4, latex) + seq![' '] + inner
            }
        },
        _ => Seq::empty(),
    }
}

/// The terms of a sum: `a + b - c`, the first with a leading `-` when it is
/// subtracted.
pub open spec fn render_sum(ts: Seq<Term>, n: u8, mask: u64, hex: bool, latex: bool) -> Seq<char>
    decreases ts,
{
    if ts.len() == 0 {
        Seq::empty()
    } else {
        let e = ts.last();
        let neg = subtracted(e, n, mask);
        let item = if neg {
            negated_item(e, n, mask, hex, latex)
        } else {
            paren(e, 4, render(e, n, mask, hex, latex))
        };
        if ts.len() == 1 {
            if neg {
                seq!['-'] + item
            } else {
                item
            }
        } else {
            render_sum(ts.drop_last(), n, mask, hex, latex) + (if neg {
                seq![' ', '-', ' ']
            } else {
                seq![' ', '+', ' ']
            }) + item
        }
    }
}

/// Masking twice is masking once.
proof fn lemma_mask_twice(x: u64, m: u64)
    ensures
        (x & m) & m == x & m,
{
    assert((x & m) & m == x & m) by (bit_vector);
}

/// Appends the text of the operator `op`.
fn push_op(out: &mut String, op: u8, latex: bool)
    ensures
        final(out)@ == old(out)@ + op_text(op as int, latex),
{
    if op == 0 {
        if latex {
            push_all(out, "\\neg");
        } else {
            push_all(out, "~");
        }
        proof {
            reveal_strlit("\\neg");
            reveal_strlit("~");
        }
    } else if op == 1 {
        if latex {
            push_all(out, "\\land");
        } else {
            push_all(out, "&");
        }
        proof {
            reveal_strlit("\\land");
            reveal_strlit("&");
        }
    } else if op == 2 {
        if latex {
            push_all(out, "\\lor");
        } else {
            push_all(out, "|");
        }
        proof {
            reveal_strlit("\\lor");
            reveal_strlit("|");
        }
    } else if op == 3 {
        if latex {
            push_all(out, "\\oplus");
        } else {
            push_all(out, "^");
        }
        proof {
            reveal_strlit("\\oplus");
            reveal_strlit("^");
        }
    } else {
        if latex {
            push_all(out, "\\cdot");
        } else {
            push_all(out, "*");
        }
        proof {
            reveal_strlit("\\cdot");
            reveal_strlit("*");
        }
    }
}

/// Appends the word `c` as shown at width `n`.
fn push_word(out: &mut String, c: u64, n: u8, mask: u64, hex: bool, latex: bool)
    requires
        1 <= n <= 64,
        mask == mask_of(n as nat),
    ensures
        final(out)@ == old(out)@ + repr_chars(c, n, mask, hex, latex),
{
    let text = VarInt::new(c).repr(n, mask, hex, latex);
    push_all(out, text.as_str());
}



/// The text of the sum of the first `k + 1` terms extends that of the
/// first `k`.
proof fn lemma_sum_step(ts: Seq<Term>, k: int, n: u8, mask: u64, hex: bool, latex: bool)
    requires
        0 <= k < ts.len(),
    ensures
        render_sum(ts.take(k + 1), n, mask, hex, latex) == render_sum(ts.take(k), n, mask, hex, latex) + (if k
            == 0 {
            if subtracted(ts[k], n, mask) {
                seq!['-']
            } else {
                Seq::<char>::empty()
            }
        } else if subtracted(ts[k], n, mask) {
            seq![' ', '-', ' ']
        } else {
            seq![' ', '+', ' ']
        }) + (if subtracted(ts[k], n, mask) {
            negated_item(ts[k], n, mask, hex, latex)
        } else {
            paren(ts[k], 4, render(ts[k], n, mask, hex, latex))
        }),
{
    let t = ts.take(k + 1);
    assert(t.drop_last() =~= ts.take(k));
    assert(t.last() == ts[k]);
    if k == 0 {
        assert(ts.take(0) =~= Seq::<Term>::empty());
        assert(render_sum(ts.take(0), n, mask, hex, latex) =~= Seq::<char>::empty());
        if subtracted(ts[k], n, mask) {
            assert(render_sum(t, n, mask, hex, latex) =~= Seq::<char>::empty() + seq!['-'] + negated_item(ts[k], n, mask, hex, latex));
        } else {
            assert(render_sum(t, n, mask, hex, latex) =~= Seq::<char>::empty() + Seq::<char>::empty() + paren(ts[k], 4, render(ts[k], n, mask, hex, latex)));
        }
    }
}

/// The joined text of the first `k + 1` operands extends that of the first
/// `k`.
proof fn lemma_join_step(ts: Seq<Term>, k: int, pp: int, op: int, n: u8, mask: u64, hex: bool, latex: bool)
    requires
        0 <= k < ts.len(),
    ensures
        render_join(ts.take(k + 1), pp, op, n, mask, hex, latex) == render_join(ts.take(k), pp, op, n, mask, hex, latex)
            + (if k == 0 {
            Seq::<char>::empty()
        } else {
            seq![' '] + op_text(op, latex) + seq![' ']
        }) + paren(ts[k], pp, render(ts[k], n, mask, hex, latex)),
{
    let t = ts.take(k + 1);
    assert(t.drop_last() =~= ts.take(k));
    assert(t.last() == ts[k]);
    if k == 0 {
        assert(ts.take(0) =~= Seq::<Term>::empty());
        assert(render_join(t, pp, op, n, mask, hex, latex) =~= Seq::<char>::empty() + Seq::<char>::empty() + paren(ts[k], pp, render(ts[k], n, mask, hex, latex)));
    } else {
        assert(render_join(t, pp, op, n, mask, hex, latex) =~= render_join(ts.take(k), pp, op, n, mask, hex, latex)
            + (seq![' '] + op_text(op, latex) + seq![' ']) + paren(ts[k], pp, render(ts[k], n, mask, hex, latex)));
    }
}

/// Appends the terms of a sum of several terms.
#[verifier::rlimit(40)]
fn render_sum_items(es: &Vec<Expr>, out: &mut String, n: u8, mask: u64, hex: bool, latex: bool)
    requires
        1 <= n <= 64,
        mask == mask_of(n as nat),
    ensures
        final(out)@ == old(out)@ + render_sum(models(es@), n, mask, hex, latex),
    decreases es, 0nat,
{
    let ghost o0 = out@;
    let ghost ts = models(es@);
    proof {
        lemma_models_index(es@);
    }
    let mut k: usize = 0;
    while k < es.len()
        invariant
            1 <= n <= 64,
            mask == mask_of(n as nat),
            k <= es.len(),
            ts == models(es@),
            ts.len() == es.len(),
            out@ == o0 + render_sum(ts.take(k as int), n, mask, hex, latex),
        decreases es.len() - k,
    {
        let e = &es[k];
        proof {
            lemma_models_index(es@);
        }
        assert(ts[k as int] == e@);
        e.render_sum_item(k == 0, out, n, mask, hex, latex);
        proof {
            lemma_sum_step(ts, k as int, n, mask, hex, latex);
        }
        k += 1;
        assert(out@ =~= o0 + render_sum(ts.take(k as int), n, mask, hex, latex));
    }
    assert(ts.take(k as int) =~= ts);
}

/// Appends the operands of a node of several operands, joined by `op`.
#[verifier::rlimit(40)]
fn render_join_items(es: &Vec<Expr>, pp: u8, op: u8, out: &mut String, n: u8, mask: u64, hex: bool, latex: bool)
    requires
        1 <= n <= 64,
        mask == mask_of(n as nat),
    ensures
        final(out)@ == old(out)@ + render_join(models(es@), pp as int, op as int, n, mask, hex, latex),
    decreases es, 0nat,
{
    let ghost o0 = out@;
    let ghost ts = models(es@);
    proof {
        lemma_models_index(es@);
    }
    let mut k: usize = 0;
    while k < es.len()
        invariant
            1 <= n <= 64,
            mask == mask_of(n as nat),
            k <= es.len(),
            ts == models(es@),
            ts.len() == es.len(),
            out@ == o0 + render_join(ts.take(k as int), pp as int, op as int, n, mask, hex, latex),
        decreases es.len() - k,
    {
        let ghost before = out@;
        if k > 0 {
            push_char(out, ' ');
            push_op(out, op, latex);
            push_char(out, ' ');
        }
        let ghost sep: Seq<char> = if k == 0 {
            Seq::<char>::empty()
        } else {
            seq![' '] + op_text(op as int, latex) + seq![' ']
        };
        assert(out@ =~= before + sep);
        proof {
            lemma_models_index(es@);
        }
        assert(ts[k as int] == es@[k as int]@);
        let ghost mid = out@;
        es[k].render_child(pp, out, n, mask, hex, latex);
        let ghost item = paren(ts[k as int], pp as int, render(ts[k as int], n, mask, hex, latex));
        assert(out@ == mid + item);
        proof {
            lemma_join_step(ts, k as int, pp as int, op as int, n, mask, hex, latex);
        }
        k += 1;
        assert(out@ =~= o0 + render_join(ts.take(k as int), pp as int, op as int, n, mask, hex, latex));
    }
    assert(ts.take(k as int) =~= ts);
}

impl Expr {
    /// How tightly this node binds: lower binds tighter.
    pub fn precedence(&self) -> (r: u8)
        ensures
            r as int == prec(self@),
        decreases self,
    {
        match self {
            Expr::Var(_) => 0,
            Expr::Const(_) => 0,
            Expr::Not(_) => 2,
            Expr::Scale(_, _) => 3,
            Expr::Mul(es) | Expr::Add(es) | Expr::And(es) | Expr::Xor(es) | Expr::Or(es) => {
                proof {
                    lemma_models_index(es@);
                }
                if es.len() == 1 {
                    es[0].precedence()
                } else {
                    match self {
                        Expr::Mul(_) => 3,
                        Expr::Add(_) => 4,
                        Expr::And(_) => 8,
                        Expr::Xor(_) => 9,
                        _ => 10,
                    }
                }
            },
        }
    }

    /// Appends the text of this node, in parentheses when it binds more
    /// loosely than a parent binding at `parent_prec`.
    fn render_child(&self, parent_prec: u8, out: &mut String, n: u8, mask: u64, hex: bool, latex: bool)
        requires
            1 <= n <= 64,
            mask == mask_of(n as nat),
        ensures
            final(out)@ == old(out)@ + paren(self@, parent_prec as int, render(self@, n, mask, hex, latex)),
        decreases self, 1nat,
    {
        let p = self.precedence();
        if parent_prec < p {
            push_char(out, '(');
            self.render_into(out, n, mask, hex, latex);
            push_char(out, ')');
            assert(final(out)@ =~= old(out)@ + (seq!['('] + render(self@, n, mask, hex, latex) + seq![')']));
        } else {
            self.render_into(out, n, mask, hex, latex);
        }
    }


    /// Appends this term of a sum: its sign (`-` alone first, ` - ` or ` + `
    /// after), then its magnitude or its text.
    fn render_sum_item(&self, first: bool, out: &mut String, n: u8, mask: u64, hex: bool, latex: bool)
        requires
            1 <= n <= 64,
            mask == mask_of(n as nat),
        ensures
            final(out)@ == old(out)@ + (if first {
                if subtracted(self@, n, mask) {
                    seq!['-']
                } else {
                    Seq::<char>::empty()
                }
            } else if subtracted(self@, n, mask) {
                seq![' ', '-', ' ']
            } else {
                seq![' ', '+', ' ']
            }) + (if subtracted(self@, n, mask) {
                negated_item(self@, n, mask, hex, latex)
            } else {
                paren(self@, 4, render(self@, n, mask, hex, latex))
            }),
        decreases self, 2nat,
    {
        let sign = 1u64 << (n - 1);
        let neg = match self {
            Expr::Const(c) => *c & mask & sign != 0,
            Expr::Scale(c, _) => *c & mask & sign != 0,
            _ => false,
        };
        assert(neg == subtracted(self@, n, mask));
        let ghost o0 = out@;
        if first {
            if neg {
                push_char(out, '-');
            }
        } else if neg {
            push_char(out, ' ');
            push_char(out, '-');
            push_char(out, ' ');
        } else {
            push_char(out, ' ');
            push_char(out, '+');
            push_char(out, ' ');
        }
        let ghost o1 = out@;
        if neg {
            self.render_negated(out, n, mask, hex, latex);
        } else {
            self.render_child(4, out, n, mask, hex, latex);
        }
        assert(out@ =~= o0 + (o1.subrange(o0.len() as int, o1.len() as int)) + out@.subrange(o1.len() as int, out@.len() as int));
    }

    /// Appends the magnitude of this subtracted term of a sum.
    fn render_negated(&self, out: &mut String, n: u8, mask: u64, hex: bool, latex: bool)
        requires
            1 <= n <= 64,
            mask == mask_of(n as nat),
            subtracted(self@, n, mask),
        ensures
            final(out)@ == old(out)@ + negated_item(self@, n, mask, hex, latex),
        decreases self, 1nat,
    {
        match self {
            Expr::Const(c) => {
                push_word(out, 0u64.wrapping_sub(*c), n, mask, hex, latex);
            },
            Expr::Scale(c, x) => {
                let m = 0u64.wrapping_sub(*c) & mask;
                if m == 1 {
                    x.render_child(3, out, n, mask, hex, latex);
                } else {
                    proof {
                        lemma_mask_twice(0u64.wrapping_sub(*c), mask);
                    }
                    let ghost o0 = out@;
                    push_word(out, m, n, mask, hex, latex);
                    push_char(out, ' ');
                    push_op(out, 4, latex);
                    push_char(out, ' ');
                    x.render_child(3, out, n, mask, hex, latex);
                    assert(out@ =~= o0 + negated_item(self@, n, mask, hex, latex));
                }
            },
            _ => {
                assert(false);
            },
        }
    }

    /// Appends the text of this expression at width `n`.
    fn render_into(&self, out: &mut String, n: u8, mask: u64, hex: bool, latex: bool)
        requires
            1 <= n <= 64,
            mask == mask_of(n as nat),
        ensures
            final(out)@ == old(out)@ + render(self@, n, mask, hex, latex),
        decreases self, 0nat,
    {
        let ghost o0 = out@;
        match self {
            Expr::Var(v) => {
                if latex {
                    push_char(out, 'v');
                    push_char(out, '_');
                    push_char(out, '{');
                    push_decimal(out, v.0 as u64);
                    push_char(out, '}');
                } else {
                    push_char(out, 'v');
                    push_decimal(out, v.0 as u64);
                }
                assert(out@ =~= o0 + render(self@, n, mask, hex, latex));
            },
            Expr::Const(c) => {
                push_word(out, *c, n, mask, hex, latex);
            },
            Expr::Scale(c, x) => {
                push_word(out, *c, n, mask, hex, latex);
                push_char(out, ' ');
                push_op(out, 4, latex);
                push_char(out, ' ');
                x.render_child(3, out, n, mask, hex, latex);
                assert(out@ =~= o0 + render(self@, n, mask, hex, latex));
            },
            Expr::Not(x) => {
                push_op(out, 0, latex);
                push_char(out, ' ');
                x.render_child(2, out, n, mask, hex, latex);
                assert(out@ =~= o0 + render(self@, n, mask, hex, latex));
            },
            Expr::Add(es) => {
                let ghost ts = models(es@);
                proof {
                    lemma_models_index(es@);
                }
                if es.len() == 1 {
                    es[0].render_into(out, n, mask, hex, latex);
                } else {
                    render_sum_items(es, out, n, mask, hex, latex);
                }
            },
            Expr::Mul(es) | Expr::And(es) | Expr::Xor(es) | Expr::Or(es) => {
                let ghost ts = models(es@);
                proof {
                    lemma_models_index(es@);
                }
                if es.len() == 1 {
                    es[0].render_into(out, n, mask, hex, latex);
                } else {
                    let (pp, op): (u8, u8) = match self {
                        Expr::Mul(_) => (3, 4),
                        Expr::And(_) => (8, 1),
                        Expr::Xor(_) => (9, 3),
                        _ => (10, 2),
                    };
                    render_join_items(es, pp, op, out, n, mask, hex, latex);
                }
            },
        }
    }

    /// The text of this expression at width `n`: infix operators with the
    /// parentheses precedence needs, constants shown with their best sign
    /// (`(-m)` when the sign bit is set), and sums written with subtractions
    /// for their negative constants and coefficients.
    pub fn repr(&self, n: u8, hex: bool, latex: bool) -> (r: String)
        requires
            1 <= n <= 64,
        ensures
            r@ == render(self@, n, mask_of(n as nat), hex, latex),
    {
        let mask = crate::varint::make_mask(n);
        let mut out = String::new();
        self.render_into(&mut out, n, mask, hex, latex);
        assert(out@ =~= render(self@, n, mask, hex, latex));
        out
    }
}

} // verus!
