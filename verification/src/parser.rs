//! Reading expressions from text.
//!
//! The text is split into tokens: decimal and `0x` hexadecimal literals,
//! variables `v<index>`, and the symbols `( ) | ^ & + - * ~ !`; blanks
//! separate tokens and are otherwise ignored. The tokens are then read by
//! the grammar, loosest first:
//!
//! ```text
//! or    = xor ("|" xor)*
//! xor   = and ("^" and)*
//! and   = add ("&" add)*
//! add   = mul (("+" | "-") mul)*
//! mul   = unary ("*" unary)*
//! unary = ("~" | "!" | "-") unary | atom
//! atom  = number | variable | "(" or ")"
//! ```
//!
//! A chain of one operator is one node with all its operands, a product
//! in its canonical form (constants and scalings gathered into one
//! coefficient); `-x` is `x` scaled by the all-ones word, and `a - b` adds
//! `-b`. The whole text must be one expression.
use vstd::prelude::*;
use crate::expr::{Expr, Term, VarId, models, lemma_models_index, lemma_models_push};
use crate::names::chars_of;
use crate::product::product_spec;
use crate::text::{char_is_digit, char_is_hex, is_digit, is_hex, push_all};
use crate::names::{digits_end, hex_end, lemma_digits_end_bounds, lemma_hex_end_bounds};

verus! {

/// A token of the expression text.
#[derive(Clone, Copy, Debug, PartialEq, Eq, Structural)]
pub enum Token {
    /// A literal word.
    Number(u64),
    /// A variable `v<index>`.
    Variable(usize),
    /// One of `( ) | ^ & + - * ~ !`.
    Symbol(char),
}

/// Why the text could not be split into tokens.
pub enum LexFault {
    /// A literal that is malformed or does not fit in 64 bits.
    Literal,
    /// A variable without an index, or with one that does not fit.
    Variable,
    /// A character that starts no token.
    Character,
}

/// The message given for a fault.
pub open spec fn fault_message(f: LexFault) -> Seq<char> {
    match f {
        LexFault::Literal => "integer literal out of range or malformed"@,
        LexFault::Variable => "variable index out of range or missing"@,
        LexFault::Character => "unexpected character"@,
    }
}

/// `c` separates tokens.
pub open spec fn is_blank(c: char) -> bool {
    c == ' ' || c == '\t' || c == '\n' || c == '\r'
}

/// `c` is a token by itself.
pub open spec fn is_symbol(c: char) -> bool {
    c == '(' || c == ')' || c == '|' || c == '^' || c == '&' || c == '+' || c == '-' || c == '*' || c == '~'
        || c == '!'
}

/// The value of a digit character.
pub open spec fn digit_value(c: char) -> nat {
    if is_digit(c) {
        (c as nat - 48) as nat
    } else if 'a' <= c <= 'f' {
        (c as nat - 87) as nat
    } else {
        (c as nat - 55) as nat
    }
}

/// The value of a numeral in base `radix`.
pub open spec fn radix_value(s: Seq<char>, radix: nat) -> nat
    decreases s.len(),
{
    if s.len() == 0 {
        0
    } else {
        radix_value(s.drop_last(), radix) * radix + digit_value(s.last())
    }
}

/// `0x` starts a hexadecimal literal at `i`.
pub open spec fn hex_start(s: Seq<char>, i: nat) -> bool {
    i + 1 < s.len() && s[i as int] == '0' && s[i + 1int] == 'x'
}

/// `o` with `prefix` in front of its tokens.
pub open spec fn prepend(prefix: Seq<Token>, o: Result<Seq<Token>, LexFault>) -> Result<Seq<Token>, LexFault> {
    match o {
        Ok(rest) => Ok(prefix + rest),
        Err(f) => Err(f),
    }
}

/// The tokens of `s` from position `i` on, or the first fault: a character
/// that starts no token, a literal or a variable index that does not fit.
pub open spec fn tokens_from(s: Seq<char>, i: nat) -> Result<Seq<Token>, LexFault>
    decreases s.len() - i,
{
    if i >= s.len() {
        Ok(Seq::empty())
    } else if is_blank(s[i as int]) {
        tokens_from(s, i + 1)
    } else if is_symbol(s[i as int]) {
        prepend(seq![Token::Symbol(s[i as int])], tokens_from(s, i + 1))
    } else if is_digit(s[i as int]) {
        if hex_start(s, i) {
            let j = hex_end(s, i + 2);
            proof {
                lemma_hex_end_bounds(s, i + 2);
            }
            let v = radix_value(s.subrange(i + 2int, j as int), 16);
            if j > i + 2 && v <= u64::MAX {
                prepend(seq![Token::Number(v as u64)], tokens_from(s, j))
            } else {
                Err(LexFault::Literal)
            }
        } else {
            let j = digits_end(s, i);
            proof {
                lemma_digits_end_bounds(s, i);
            }
            let v = radix_value(s.subrange(i as int, j as int), 10);
            if j > i && v <= u64::MAX {
                prepend(seq![Token::Number(v as u64)], tokens_from(s, j))
            } else {
                Err(LexFault::Literal)
            }
        }
    } else if s[i as int] == 'v' {
        let j = digits_end(s, i + 1);
        proof {
            lemma_digits_end_bounds(s, i + 1);
        }
        let v = radix_value(s.subrange(i + 1int, j as int), 10);
        if j > i + 1 && v <= usize::MAX {
            prepend(seq![Token::Variable(v as usize)], tokens_from(s, j))
        } else {
            Err(LexFault::Variable)
        }
    } else {
        Err(LexFault::Character)
    }
}

/// More digits never make a numeral smaller.
proof fn lemma_radix_value_prefix(s: Seq<char>, k: int, radix: nat)
    requires
        0 <= k <= s.len(),
        radix >= 1,
    ensures
        radix_value(s.take(k), radix) <= radix_value(s, radix),
    decreases s.len(),
{
    if k < s.len() {
        assert(s.drop_last().take(k) =~= s.take(k));
        lemma_radix_value_prefix(s.drop_last(), k, radix);
        let a = radix_value(s.drop_last(), radix);
        assert(a <= a * radix) by (nonlinear_arith)
            requires
                radix >= 1,
        ;
    } else {
        assert(s.take(k) =~= s);
    }
}

/// The value of a digit character.
fn digit_of(c: char) -> (d: u64)
    requires
        is_hex(c),
    ensures
        d == digit_value(c),
        d < 16,
{
    let n = c as u32;
    if char_is_digit(c) {
        (n - 48) as u64
    } else if 'a' <= c && c <= 'f' {
        (n - 87) as u64
    } else {
        (n - 55) as u64
    }
}

/// The value of the numeral `chars[start..end]` in base `radix`, if it fits
/// a word.
pub(crate) fn parse_radix(chars: &Vec<char>, start: usize, end: usize, radix: u64) -> (r: Option<u64>)
    requires
        start <= end <= chars.len(),
        radix == 10 || radix == 16,
        forall|j: int| start <= j < end ==> is_hex(#[trigger] chars@[j]),
    ensures
        match r {
            Some(v) => v == radix_value(chars@.subrange(start as int, end as int), radix as nat),
            None => radix_value(chars@.subrange(start as int, end as int), radix as nat) > u64::MAX,
        },
{
    let ghost sub = chars@.subrange(start as int, end as int);
    let mut acc: u64 = 0;
    let mut k = start;
    while k < end
        invariant
            start <= k <= end <= chars.len(),
            radix == 10 || radix == 16,
            sub == chars@.subrange(start as int, end as int),
            forall|j: int| start <= j < end ==> is_hex(#[trigger] chars@[j]),
            acc == radix_value(sub.take(k - start), radix as nat),
        decreases end - k,
    {
        let d = digit_of(chars[k]);
        assert(sub.take(k + 1 - start).drop_last() =~= sub.take(k - start));
        assert(sub[k - start] == chars@[k as int]);
        let m = acc.checked_mul(radix);
        if m.is_none() {
            proof {
                lemma_radix_value_prefix(sub, k + 1 - start, radix as nat);
            }
            return None;
        }
        let a = m.unwrap().checked_add(d);
        if a.is_none() {
            proof {
                lemma_radix_value_prefix(sub, k + 1 - start, radix as nat);
            }
            return None;
        }
        acc = a.unwrap();
        k += 1;
    }
    assert(sub.take(end - start) =~= sub);
    Some(acc)
}

/// Whether `c` continues a run of digits (hexadecimal ones with `hex`).
fn in_run(c: char, hex: bool) -> (r: bool)
    ensures
        r == (if hex {
            is_hex(c)
        } else {
            is_digit(c)
        }),
{
    if hex {
        char_is_hex(c)
    } else {
        char_is_digit(c)
    }
}

/// The end of the run of digits (hexadecimal ones with `hex`) from `i`.
fn run_end(chars: &Vec<char>, i: usize, hex: bool) -> (r: usize)
    requires
        i <= chars.len(),
    ensures
        hex ==> r == hex_end(chars@, i as nat),
        !hex ==> r == digits_end(chars@, i as nat),
        i <= r <= chars.len(),
        forall|j: int| i <= j < r ==> is_hex(#[trigger] chars@[j]) && (!hex ==> is_digit(chars@[j])),
{
    let mut k = i;
    while k < chars.len() && in_run(chars[k], hex)
        invariant
            i <= k <= chars.len(),
            hex ==> hex_end(chars@, i as nat) == hex_end(chars@, k as nat),
            !hex ==> digits_end(chars@, i as nat) == digits_end(chars@, k as nat),
            forall|j: int| i <= j < k ==> is_hex(#[trigger] chars@[j]) && (!hex ==> is_digit(chars@[j])),
        decreases chars.len() - k,
    {
        k += 1;
    }
    k
}

/// An error message.
pub(crate) fn error_at(message: &str) -> (r: String)
    ensures
        r@ == message@,
{
    let mut out = String::new();
    push_all(&mut out, message);
    out
}

/// Splits `chars` into tokens.
fn tokenize(chars: &Vec<char>) -> (r: Result<Vec<Token>, String>)
    ensures
        match tokens_from(chars@, 0) {
            Ok(ts) => r matches Ok(v) && v@ == ts,
            Err(f) => r matches Err(m) && m@ == fault_message(f),
        },
{
    let ghost s = chars@;
    let mut toks: Vec<Token> = Vec::new();
    let mut i: usize = 0;
    while i < chars.len()
        invariant
            s == chars@,
            i <= chars.len(),
            prepend(toks@, tokens_from(s, i as nat)) == tokens_from(s, 0),
        decreases chars.len() - i,
    {
        let c = chars[i];
        if c == ' ' || c == '\t' || c == '\n' || c == '\r' {
            i += 1;
        } else if c == '(' || c == ')' || c == '|' || c == '^' || c == '&' || c == '+' || c == '-' || c == '*' || c
            == '~' || c == '!' {
            proof {
                match tokens_from(s, (i + 1) as nat) {
                    Ok(rest) => {
                        assert(toks@ + (seq![Token::Symbol(c)] + rest) =~= toks@.push(Token::Symbol(c)) + rest);
                    },
                    Err(_) => {},
                }
            }
            toks.push(Token::Symbol(c));
            i += 1;
        } else if char_is_digit(c) {
            let hex = i + 1 < chars.len() && c == '0' && chars[i + 1] == 'x';
            let start = if hex {
                i + 2
            } else {
                i
            };
            let j = run_end(chars, start, hex);
            let v = if j > start {
                parse_radix(chars, start, j, if hex {
                    16
                } else {
                    10
                })
            } else {
                None
            };
            match v {
                Some(n) => {
                    proof {
                        match tokens_from(s, j as nat) {
                            Ok(rest) => {
                                assert(toks@ + (seq![Token::Number(n)] + rest) =~= toks@.push(Token::Number(n))
                                    + rest);
                            },
                            Err(_) => {},
                        }
                    }
                    toks.push(Token::Number(n));
                    i = j;
                },
                None => {
                    proof {
                        reveal_strlit("integer literal out of range or malformed");
                    }
                    return Err(error_at("integer literal out of range or malformed"));
                },
            }
        } else if c == 'v' {
            let j = run_end(chars, i + 1, false);
            let v = if j > i + 1 {
                parse_radix(chars, i + 1, j, 10)
            } else {
                None
            };
            match v {
                Some(n) => {
                    if n > usize::MAX as u64 {
                        proof {
                            reveal_strlit("variable index out of range or missing");
                        }
                        return Err(error_at("variable index out of range or missing"));
                    }
                    let index = n as usize;
                    proof {
                        match tokens_from(s, j as nat) {
                            Ok(rest) => {
                                assert(toks@ + (seq![Token::Variable(index)] + rest) =~= toks@.push(
                                    Token::Variable(index),
                                ) + rest);
                            },
                            Err(_) => {},
                        }
                    }
                    toks.push(Token::Variable(index));
                    i = j;
                },
                None => {
                    proof {
                        reveal_strlit("variable index out of range or missing");
                    }
                    return Err(error_at("variable index out of range or missing"));
                },
            }
        } else {
            proof {
                reveal_strlit("unexpected character");
            }
            return Err(error_at("unexpected character"));
        }
    }
    assert(toks@ + Seq::<Token>::empty() =~= toks@);
    Ok(toks)
}

/// The grammar levels, loosest first: or (6), xor, and, add, mul, unary,
/// atom (0).
pub open spec fn or_level() -> nat {
    6
}

/// `tok` is an operator of the binary level `level`.
pub open spec fn level_op(level: nat, tok: Token) -> bool {
    match tok {
        Token::Symbol(c) => if level == 2 {
            c == '*'
        } else if level == 3 {
            c == '+' || c == '-'
        } else if level == 4 {
            c == '&'
        } else if level == 5 {
            c == '^'
        } else {
            level == 6 && c == '|'
        },
        _ => false,
    }
}

/// `tok` is a prefix operator.
pub open spec fn unary_op(tok: Token) -> bool {
    tok == Token::Symbol('~') || tok == Token::Symbol('!') || tok == Token::Symbol('-')
}

/// A prefix operator applied: `-` scales by the all-ones word, `~` and `!`
/// complement.
pub open spec fn unary_node(tok: Token, e: Term) -> Term {
    if tok == Token::Symbol('-') {
        Term::Scale(u64::MAX, Box::new(e))
    } else {
        Term::Not(Box::new(e))
    }
}

/// An operand after the operator `tok`: subtracted terms are negated.
pub open spec fn operand(level: nat, tok: Token, e: Term) -> Term {
    if level == 3 && tok == Token::Symbol('-') {
        Term::Scale(u64::MAX, Box::new(e))
    } else {
        e
    }
}

/// The node of a chain of operands of level `level`: the operand itself
/// when it is alone.
pub open spec fn chain_node(level: nat, ts: Seq<Term>) -> Term {
    if ts.len() == 1 {
        ts[0]
    } else if level == 2 {
        product_spec(ts)
    } else if level == 3 {
        Term::Add(ts)
    } else if level == 4 {
        Term::And(ts)
    } else if level == 5 {
        Term::Xor(ts)
    } else {
        Term::Or(ts)
    }
}

/// The expression of level `level` that starts at token `p`, with the
/// position after it; `None` when no such expression starts there.
pub open spec fn parse_at(t: Seq<Token>, p: nat, level: nat) -> Option<(Term, nat)>
    decreases t.len() - p, level, 1int,
{
    if p > t.len() {
        None
    } else if level == 0 {
        if p < t.len() {
            match t[p as int] {
                Token::Number(n) => Some((Term::Const(n), p + 1)),
                Token::Variable(v) => Some((Term::Var(v), p + 1)),
                Token::Symbol(c) => if c == '(' {
                    match parse_at(t, p + 1, or_level()) {
                        Some((e, q)) => if q < t.len() && t[q as int] == Token::Symbol(')') {
                            Some((e, q + 1))
                        } else {
                            None
                        },
                        None => None,
                    }
                } else {
                    None
                },
            }
        } else {
            None
        }
    } else if level == 1 {
        if p < t.len() && unary_op(t[p as int]) {
            match parse_at(t, p + 1, 1) {
                Some((e, q)) => Some((unary_node(t[p as int], e), q)),
                None => None,
            }
        } else {
            parse_at(t, p, 0)
        }
    } else {
        match parse_at(t, p, (level - 1) as nat) {
            Some((first, q)) => if p <= q <= t.len() {
                parse_rest(t, q, level, seq![first])
            } else {
                None
            },
            None => None,
        }
    }
}

/// Continues a chain of level `level` at token `p` with the operands `acc`
/// read so far: while an operator of the level follows, the next operand is
/// read; then the chain's node, with the position after it.
pub open spec fn parse_rest(t: Seq<Token>, p: nat, level: nat, acc: Seq<Term>) -> Option<(Term, nat)>
    decreases t.len() - p, level, 0int,
{
    if p < t.len() && level >= 2 && level_op(level, t[p as int]) {
        match parse_at(t, p + 1, (level - 1) as nat) {
            Some((x, q)) => if p + 1 <= q <= t.len() {
                parse_rest(t, q, level, acc.push(operand(level, t[p as int], x)))
            } else {
                None
            },
            None => None,
        }
    } else {
        Some((chain_node(level, acc), p))
    }
}

/// Reading from `q` on, with the operand `first` already read at the unary
/// level: the chains of every binary level from the product up to `level`
/// continue after it, each with the node of the level below as its first
/// operand.
pub open spec fn continue_chain(t: Seq<Token>, p: nat, q: nat, level: nat, first: Term) -> Option<(Term, nat)>
    decreases level,
{
    if level <= 1 {
        Some((first, q))
    } else {
        match continue_chain(t, p, q, (level - 1) as nat, first) {
            Some((x, q2)) => if p <= q2 <= t.len() {
                parse_rest(t, q2, level, seq![x])
            } else {
                None
            },
            None => None,
        }
    }
}

/// The operand after the prefix operator at `p`, read as an expression of
/// the unary level (a prefix operator applied to more, or an atom).
pub open spec fn unary_operand(t: Seq<Token>, p: nat) -> Option<(Term, nat)> {
    parse_at(t, p + 1, 1)
}

/// A prefix operator binds more tightly than every binary operator: at a
/// prefix operator, the expression of any level is the prefix operator
/// applied to the operand read at the unary level, followed by the chains
/// of the binary levels. So `~a * b` is the product of `~a` and `b`, never
/// the complement of `a * b`.
pub proof fn lemma_prefix_binds_tightest(t: Seq<Token>, p: nat, level: nat)
    requires
        p < t.len(),
        unary_op(t[p as int]),
        1 <= level <= or_level(),
    ensures
        match unary_operand(t, p) {
            Some((e, q)) => parse_at(t, p, level) == continue_chain(t, p, q, level, unary_node(t[p as int], e)),
            None => parse_at(t, p, level) is None,
        },
    decreases level,
{
    if level > 1 {
        lemma_prefix_binds_tightest(t, p, (level - 1) as nat);
    }
}

/// The expression the text `s` spells, when it spells one.
pub open spec fn parse_spec(s: Seq<char>) -> Option<Term> {
    match tokens_from(s, 0) {
        Ok(t) => match parse_at(t, 0, or_level()) {
            Some((e, q)) => if q == t.len() {
                Some(e)
            } else {
                None
            },
            None => None,
        },
        Err(_) => None,
    }
}

/// Whether `tok` is an operator of level `level`.
fn is_level_op(level: u8, tok: Token) -> (r: bool)
    requires
        2 <= level <= 6,
    ensures
        r == level_op(level as nat, tok),
{
    match tok {
        Token::Symbol(c) => if level == 2 {
            c == '*'
        } else if level == 3 {
            c == '+' || c == '-'
        } else if level == 4 {
            c == '&'
        } else if level == 5 {
            c == '^'
        } else {
            c == '|'
        },
        _ => false,
    }
}

/// The chain node of `acc`.
fn build_chain(level: u8, acc: Vec<Expr>) -> (r: Expr)
    requires
        2 <= level <= 6,
        acc.len() >= 1,
    ensures
        r@ == chain_node(level as nat, models(acc@)),
{
    proof {
        lemma_models_index(acc@);
    }
    if acc.len() == 1 {
        let mut acc = acc;
        let e = acc.pop().unwrap();
        e
    } else if level == 2 {
        Expr::product(acc)
    } else if level == 3 {
        Expr::Add(acc)
    } else if level == 4 {
        Expr::And(acc)
    } else if level == 5 {
        Expr::Xor(acc)
    } else {
        Expr::Or(acc)
    }
}

/// Reads the expression of level `level` at token `p`.
fn parse_level(t: &Vec<Token>, p: usize, level: u8) -> (r: Result<(Expr, usize), String>)
    requires
        level <= 6,
    ensures
        match parse_at(t@, p as nat, level as nat) {
            Some((e, q)) => r matches Ok((x, q2)) && x@ == e && q2 == q,
            None => r is Err,
        },
    decreases t@.len() - p, level, 1int,
{
    if p > t.len() {
        return Err(error_at("unexpected end of input"));
    }
    if level == 0 {
        if p >= t.len() {
            return Err(error_at("unexpected end of input"));
        }
        match t[p] {
            Token::Number(n) => Ok((Expr::Const(n), p + 1)),
            Token::Variable(v) => Ok((Expr::Var(VarId(v)), p + 1)),
            Token::Symbol(c) => {
                if c != '(' {
                    return Err(error_at("unexpected operator"));
                }
                let (e, q) = match parse_level(t, p + 1, 6) {
                    Ok(v) => v,
                    Err(m) => {
                        return Err(m);
                    },
                };
                if q < t.len() && t[q] == Token::Symbol(')') {
                    Ok((e, q + 1))
                } else {
                    Err(error_at("missing closing parenthesis"))
                }
            },
        }
    } else if level == 1 {
        if p < t.len() && (t[p] == Token::Symbol('~') || t[p] == Token::Symbol('!') || t[p] == Token::Symbol('-')) {
            let (e, q) = match parse_level(t, p + 1, 1) {
                Ok(v) => v,
                Err(m) => {
                    return Err(m);
                },
            };
            if t[p] == Token::Symbol('-') {
                Ok((Expr::Scale(u64::MAX, Box::new(e)), q))
            } else {
                Ok((Expr::Not(Box::new(e)), q))
            }
        } else {
            parse_level(t, p, 0)
        }
    } else {
        let (first, q) = match parse_level(t, p, level - 1) {
            Ok(v) => v,
            Err(m) => {
                return Err(m);
            },
        };
        if !(p <= q && q <= t.len()) {
            return Err(error_at("malformed chain"));
        }
        let mut acc: Vec<Expr> = Vec::new();
        acc.push(first);
        proof {
            lemma_models_push(Seq::<Expr>::empty(), acc@[0]);
            assert(acc@ =~= Seq::<Expr>::empty().push(acc@[0]));
            assert(models(Seq::<Expr>::empty()) =~= Seq::<Term>::empty());
            assert(models(acc@) =~= seq![acc@[0]@]);
        }
        parse_chain(t, q, level, acc)
    }
}

/// Continues a chain of level `level` at token `p` with the operands `acc`.
fn parse_chain(t: &Vec<Token>, p: usize, level: u8, acc: Vec<Expr>) -> (r: Result<(Expr, usize), String>)
    requires
        2 <= level <= 6,
        acc.len() >= 1,
        p <= t.len(),
    ensures
        match parse_rest(t@, p as nat, level as nat, models(acc@)) {
            Some((e, q)) => r matches Ok((x, q2)) && x@ == e && q2 == q,
            None => r is Err,
        },
    decreases t@.len() - p, level, 0int,
{
    if p < t.len() && is_level_op(level, t[p]) {
        let (x, q) = match parse_level(t, p + 1, level - 1) {
            Ok(v) => v,
            Err(m) => {
                return Err(m);
            },
        };
        if !(p + 1 <= q && q <= t.len()) {
            return Err(error_at("malformed chain"));
        }
        let item = if level == 3 && t[p] == Token::Symbol('-') {
            Expr::Scale(u64::MAX, Box::new(x))
        } else {
            x
        };
        let mut acc = acc;
        let ghost before = acc@;
        acc.push(item);
        proof {
            lemma_models_push(before, item);
        }
        parse_chain(t, q, level, acc)
    } else {
        Ok((build_chain(level, acc), p))
    }
}

/// Reads an expression from `input`. Fails, with a message, exactly when
/// the text does not spell an expression of the grammar or a literal does
/// not fit; a text that cannot be split into tokens gets the message of
/// its first fault.
pub fn parse_expr(input: &str) -> (r: Result<Expr, String>)
    ensures
        match parse_spec(input@) {
            Some(e) => r matches Ok(x) && x@ == e,
            None => r is Err,
        },
        tokens_from(input@, 0) matches Err(f) ==> r matches Err(m) && m@ == fault_message(f),
{
    let chars = chars_of(input);
    parse_chars(&chars)
}

/// Reads an expression from the characters `chars`.
pub(crate) fn parse_chars(chars: &Vec<char>) -> (r: Result<Expr, String>)
    ensures
        match parse_spec(chars@) {
            Some(e) => r matches Ok(x) && x@ == e,
            None => r is Err,
        },
        tokens_from(chars@, 0) matches Err(f) ==> r matches Err(m) && m@ == fault_message(f),
{
    let t = match tokenize(chars) {
        Ok(t) => t,
        Err(m) => {
            return Err(m);
        },
    };
    let (e, q) = match parse_level(&t, 0, 6) {
        Ok(v) => v,
        Err(m) => {
            return Err(m);
        },
    };
    if q != t.len() {
        return Err(error_at("unexpected input after the expression"));
    }
    Ok(e)
}

} // verus!
