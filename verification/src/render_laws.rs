//! Laws of rendering: the text is faithful to the grammar the parser reads.
use vstd::prelude::*;
use crate::expr::Term;
use crate::parser::{level_op, Token};
use crate::render::{render, render_join, render_sum, subtracted, paren, prec, op_text};
use crate::varint::repr_chars;

verus! {

/// The level at which the parser reads the binary operator `c`.
pub open spec fn symbol_level(c: char) -> int {
    if level_op(2, Token::Symbol(c)) {
        2
    } else if level_op(3, Token::Symbol(c)) {
        3
    } else if level_op(4, Token::Symbol(c)) {
        4
    } else if level_op(5, Token::Symbol(c)) {
        5
    } else {
        6
    }
}

/// The level at which the parser reads the top of `t`: 0 for a variable
/// or a constant, 1 for a prefix operator, else the level of its binary
/// operator; a collection of one operand reads as its operand.
pub open spec fn parser_level(t: Term) -> int
    decreases t,
{
    match t {
        Term::Var(_) => 0,
        Term::Const(_) => 0,
        Term::Not(_) => 1,
        Term::Scale(_, _) => symbol_level('*'),
        Term::Mul(ts) => if ts.len() == 1 {
            parser_level(ts[0])
        } else {
            symbol_level('*')
        },
        Term::Add(ts) => if ts.len() == 1 {
            parser_level(ts[0])
        } else {
            symbol_level('+')
        },
        Term::And(ts) => if ts.len() == 1 {
            parser_level(ts[0])
        } else {
            symbol_level('&')
        },
        Term::Xor(ts) => if ts.len() == 1 {
            parser_level(ts[0])
        } else {
            symbol_level('^')
        },
        Term::Or(ts) => if ts.len() == 1 {
            parser_level(ts[0])
        } else {
            symbol_level('|')
        },
    }
}

/// The text of `child` as an operand of `parent`: in parentheses exactly
/// when the parser reads its operator at a looser level than the parent's.
pub open spec fn operand_text(child: Term, parent: Term, n: u8, mask: u64, hex: bool, latex: bool) -> Seq<char> {
    if parser_level(child) > parser_level(parent) {
        seq!['('] + render(child, n, mask, hex, latex) + seq![')']
    } else {
        render(child, n, mask, hex, latex)
    }
}

/// `pieces` one after the other, `sep` between each two.
pub open spec fn joined(pieces: Seq<Seq<char>>, sep: Seq<char>) -> Seq<char>
    decreases pieces.len(),
{
    if pieces.len() == 0 {
        Seq::empty()
    } else if pieces.len() == 1 {
        pieces[0]
    } else {
        joined(pieces.drop_last(), sep) + sep + pieces.last()
    }
}

/// The symbol and operator code of a node of several operands joined by a
/// binary operator: `&`, `|`, `^` or `*`.
pub open spec fn joined_operator(t: Term) -> Option<(Seq<Term>, int)> {
    match t {
        Term::And(ts) => if ts.len() >= 2 { Some((ts, 1)) } else { None },
        Term::Or(ts) => if ts.len() >= 2 { Some((ts, 2)) } else { None },
        Term::Xor(ts) => if ts.len() >= 2 { Some((ts, 3)) } else { None },
        Term::Mul(ts) => if ts.len() >= 2 { Some((ts, 4)) } else { None },
        _ => None,
    }
}

/// How render's binding strengths line up with the parser's levels.
proof fn lemma_prec_level(t: Term)
    ensures
        (prec(t) == 0 && parser_level(t) == 0) || (prec(t) == 2 && parser_level(t) == 1) || (prec(t) == 3
            && parser_level(t) == 2) || (prec(t) == 4 && parser_level(t) == 3) || (prec(t) == 8 && parser_level(t)
            == 4) || (prec(t) == 9 && parser_level(t) == 5) || (prec(t) == 10 && parser_level(t) == 6),
    decreases t,
{
    match t {
        Term::Mul(ts) | Term::Add(ts) | Term::And(ts) | Term::Xor(ts) | Term::Or(ts) => if ts.len() == 1 {
            lemma_prec_level(ts[0]);
        },
        _ => {},
    }
}

/// The joined text of operands, each in parentheses as its binding needs.
proof fn lemma_join_pieces(ts: Seq<Term>, parent: Term, pp: int, op: int, n: u8, mask: u64, hex: bool, latex: bool)
    requires
        forall|k: int|
            0 <= k < ts.len() ==> paren(#[trigger] ts[k], pp, render(ts[k], n, mask, hex, latex)) == operand_text(
                ts[k],
                parent,
                n,
                mask,
                hex,
                latex,
            ),
    ensures
        render_join(ts, pp, op, n, mask, hex, latex) == joined(
            Seq::new(ts.len(), |k: int| operand_text(ts[k], parent, n, mask, hex, latex)),
            seq![' '] + op_text(op, latex) + seq![' '],
        ),
    decreases ts.len(),
{
    let pieces = Seq::new(ts.len(), |k: int| operand_text(ts[k], parent, n, mask, hex, latex));
    if ts.len() > 0 {
        let pre = ts.drop_last();
        assert forall|k: int| 0 <= k < pre.len() implies paren(#[trigger] pre[k], pp, render(pre[k], n, mask, hex, latex))
            == operand_text(pre[k], parent, n, mask, hex, latex) by {
            assert(pre[k] == ts[k]);
        }
        lemma_join_pieces(pre, parent, pp, op, n, mask, hex, latex);
        assert(pieces.drop_last() =~= Seq::new(pre.len(), |k: int| operand_text(pre[k], parent, n, mask, hex, latex)));
        assert(ts.last() == ts[ts.len() - 1]);
        assert(pieces.last() == operand_text(ts.last(), parent, n, mask, hex, latex));
        if ts.len() == 1 {
            assert(pieces[0] == pieces.last());
        }
    }
}

/// Rendering is faithful to the grammar: the text of a node of several
/// operands joined by `&`, `|`, `^` or `*` is its operands joined by the
/// operator, each operand in parentheses exactly when the parser reads its
/// operator at a looser level than the node's. So `(v0 ^ v1) & v2` keeps its
/// parentheses, which the parser needs to read the `^` inside the `&`.
pub proof fn lemma_render_faithful_to_grammar(t: Term, n: u8, mask: u64, hex: bool, latex: bool)
    requires
        joined_operator(t) is Some,
    ensures
        render(t, n, mask, hex, latex) == joined(
            Seq::new(
                joined_operator(t)->Some_0.0.len(),
                |k: int| operand_text(joined_operator(t)->Some_0.0[k], t, n, mask, hex, latex),
            ),
            seq![' '] + op_text(joined_operator(t)->Some_0.1, latex) + seq![' '],
        ),
{
    let (ts, op) = joined_operator(t)->Some_0;
    let pp = prec(t);
    lemma_prec_level(t);
    assert forall|k: int| 0 <= k < ts.len() implies paren(#[trigger] ts[k], pp, render(ts[k], n, mask, hex, latex))
        == operand_text(ts[k], t, n, mask, hex, latex) by {
        lemma_prec_level(ts[k]);
    }
    lemma_join_pieces(ts, t, pp, op, n, mask, hex, latex);
}

/// The operand of a complement is in parentheses exactly when the parser
/// reads its operator at a binary level, which binds more loosely than the
/// prefix operator.
pub proof fn lemma_render_not_faithful(x: Term, n: u8, mask: u64, hex: bool, latex: bool)
    ensures
        render(Term::Not(Box::new(x)), n, mask, hex, latex) == op_text(0, latex) + seq![' '] + operand_text(
            x,
            Term::Not(Box::new(x)),
            n,
            mask,
            hex,
            latex,
        ),
{
    lemma_prec_level(x);
}

/// The operand of a scaling is in parentheses exactly when the parser
/// reads its operator more loosely than the product the scaling is read as.
pub proof fn lemma_render_scale_faithful(c: u64, x: Term, n: u8, mask: u64, hex: bool, latex: bool)
    ensures
        render(Term::Scale(c, Box::new(x)), n, mask, hex, latex) == repr_chars(c, n, mask, hex, latex) + seq![' ']
            + op_text(4, latex) + seq![' '] + operand_text(x, Term::Scale(c, Box::new(x)), n, mask, hex, latex),
{
    lemma_prec_level(x);
}

/// The joined text of the terms of a sum none of which is subtracted.
proof fn lemma_sum_pieces(ts: Seq<Term>, parent: Term, n: u8, mask: u64, hex: bool, latex: bool)
    requires
        forall|k: int| 0 <= k < ts.len() ==> !subtracted(#[trigger] ts[k], n, mask),
        forall|k: int|
            0 <= k < ts.len() ==> paren(#[trigger] ts[k], 4, render(ts[k], n, mask, hex, latex)) == operand_text(
                ts[k],
                parent,
                n,
                mask,
                hex,
                latex,
            ),
    ensures
        render_sum(ts, n, mask, hex, latex) == joined(
            Seq::new(ts.len(), |k: int| operand_text(ts[k], parent, n, mask, hex, latex)),
            seq![' ', '+', ' '],
        ),
    decreases ts.len(),
{
    let pieces = Seq::new(ts.len(), |k: int| operand_text(ts[k], parent, n, mask, hex, latex));
    if ts.len() > 0 {
        let pre = ts.drop_last();
        assert forall|k: int| 0 <= k < pre.len() implies !subtracted(#[trigger] pre[k], n, mask) && paren(
            pre[k],
            4,
            render(pre[k], n, mask, hex, latex),
        ) == operand_text(pre[k], parent, n, mask, hex, latex) by {
            assert(pre[k] == ts[k]);
        }
        lemma_sum_pieces(pre, parent, n, mask, hex, latex);
        assert(pieces.drop_last() =~= Seq::new(pre.len(), |k: int| operand_text(pre[k], parent, n, mask, hex, latex)));
        assert(ts.last() == ts[ts.len() - 1]);
        assert(pieces.last() == operand_text(ts.last(), parent, n, mask, hex, latex));
        if ts.len() == 1 {
            assert(pieces[0] == pieces.last());
        }
    }
}

/// A sum of several terms, none subtracted, is its terms joined by `+`,
/// each in parentheses exactly when the parser reads its operator more
/// loosely than the sum's: `a + (b & c)` keeps its parentheses.
pub proof fn lemma_render_sum_faithful(ts: Seq<Term>, n: u8, mask: u64, hex: bool, latex: bool)
    requires
        ts.len() >= 2,
        forall|k: int| 0 <= k < ts.len() ==> !subtracted(#[trigger] ts[k], n, mask),
    ensures
        render(Term::Add(ts), n, mask, hex, latex) == joined(
            Seq::new(ts.len(), |k: int| operand_text(ts[k], Term::Add(ts), n, mask, hex, latex)),
            seq![' ', '+', ' '],
        ),
{
    assert forall|k: int| 0 <= k < ts.len() implies paren(#[trigger] ts[k], 4, render(ts[k], n, mask, hex, latex))
        == operand_text(ts[k], Term::Add(ts), n, mask, hex, latex) by {
        lemma_prec_level(ts[k]);
    }
    lemma_sum_pieces(ts, Term::Add(ts), n, mask, hex, latex);
}

} // verus!
