//! The expression tree of mixed boolean-arithmetic expressions, its
//! mathematical model and its value on fixed-width words.
use vstd::prelude::*;
use crate::varint::{word, mask_of, make_mask, VarInt};
use crate::semantics::lemma_word;

verus! {

/// Identifies a variable by its index.
#[derive(Clone, Copy, Debug, PartialEq, Eq, PartialOrd, Ord, Hash)]
pub struct VarId(pub usize);

/// A mixed boolean-arithmetic expression tree.
#[derive(Debug, PartialEq, Eq, PartialOrd, Ord, Hash)]
pub enum Expr {
    /// A variable.
    Var(VarId),
    /// A constant word.
    Const(u64),
    /// Bitwise complement.
    Not(Box<Expr>),
    /// Multiplication by a constant coefficient.
    Scale(u64, Box<Expr>),
    /// Bitwise and of all operands.
    And(Vec<Expr>),
    /// Bitwise or of all operands.
    Or(Vec<Expr>),
    /// Bitwise exclusive or of all operands.
    Xor(Vec<Expr>),
    /// Wrapping sum of all operands.
    Add(Vec<Expr>),
    /// Wrapping product of all operands.
    Mul(Vec<Expr>),
}

/// The mathematical model of an expression tree: the same shape, with
/// sequences in place of vectors.
pub enum Term {
    Var(usize),
    Const(u64),
    Not(Box<Term>),
    Scale(u64, Box<Term>),
    And(Seq<Term>),
    Or(Seq<Term>),
    Xor(Seq<Term>),
    Add(Seq<Term>),
    Mul(Seq<Term>),
}

/// The model of an expression.
pub open spec fn model(e: Expr) -> Term
    decreases e,
{
    match e {
        Expr::Var(v) => Term::Var(v.0),
        Expr::Const(c) => Term::Const(c),
        Expr::Not(x) => Term::Not(Box::new(model(*x))),
        Expr::Scale(c, x) => Term::Scale(c, Box::new(model(*x))),
        Expr::And(es) => Term::And(models(es@)),
        Expr::Or(es) => Term::Or(models(es@)),
        Expr::Xor(es) => Term::Xor(models(es@)),
        Expr::Add(es) => Term::Add(models(es@)),
        Expr::Mul(es) => Term::Mul(models(es@)),
    }
}

/// The models of a sequence of expressions.
pub open spec fn models(es: Seq<Expr>) -> Seq<Term>
    decreases es,
{
    if es.len() == 0 {
        Seq::empty()
    } else {
        models(es.drop_last()).push(model(es.last()))
    }
}

impl View for Expr {
    type V = Term;

    open spec fn view(&self) -> Term {
        model(*self)
    }
}

/// The n-ary operators.
pub enum Op {
    And,
    Or,
    Xor,
    Add,
    Mul,
}

/// The neutral element of `op`.
pub open spec fn unit(op: Op) -> u64 {
    match op {
        Op::And => u64::MAX,
        Op::Or => 0,
        Op::Xor => 0,
        Op::Add => 0,
        Op::Mul => 1,
    }
}

/// `op` applied to two words.
pub open spec fn apply(op: Op, a: u64, b: u64) -> u64 {
    match op {
        Op::And => a & b,
        Op::Or => a | b,
        Op::Xor => a ^ b,
        Op::Add => word(a + b),
        Op::Mul => word(a * b),
    }
}

/// The value of variable `i` under `vars` (zero when unassigned).
pub open spec fn var_value(vars: Seq<u64>, i: usize) -> u64 {
    if i < vars.len() {
        vars[i as int]
    } else {
        0
    }
}

/// The 64-bit value of `t` under the assignment `vars`.
pub open spec fn eval(t: Term, vars: Seq<u64>) -> u64
    decreases t,
{
    match t {
        Term::Var(v) => var_value(vars, v),
        Term::Const(c) => c,
        Term::Not(x) => !eval(*x, vars),
        Term::Scale(c, x) => word(c * eval(*x, vars)),
        Term::And(ts) => eval_fold(Op::And, ts, vars),
        Term::Or(ts) => eval_fold(Op::Or, ts, vars),
        Term::Xor(ts) => eval_fold(Op::Xor, ts, vars),
        Term::Add(ts) => eval_fold(Op::Add, ts, vars),
        Term::Mul(ts) => eval_fold(Op::Mul, ts, vars),
    }
}

/// `op` folded left to right over the values of `ts`.
pub open spec fn eval_fold(op: Op, ts: Seq<Term>, vars: Seq<u64>) -> u64
    decreases ts,
{
    if ts.len() == 0 {
        unit(op)
    } else {
        apply(op, eval_fold(op, ts.drop_last(), vars), eval(ts.last(), vars))
    }
}

/// The number of nodes of `t`.
pub open spec fn size(t: Term) -> nat
    decreases t,
{
    match t {
        Term::Var(_) | Term::Const(_) => 1,
        Term::Not(x) | Term::Scale(_, x) => 1 + size(*x),
        Term::And(ts) | Term::Or(ts) | Term::Xor(ts) | Term::Add(ts) | Term::Mul(ts) => 1
            + sizes(ts),
    }
}

/// The total number of nodes of `ts`.
pub open spec fn sizes(ts: Seq<Term>) -> nat
    decreases ts,
{
    if ts.len() == 0 {
        0
    } else {
        sizes(ts.drop_last()) + size(ts.last())
    }
}

/// `models` commutes with indexing.
pub proof fn lemma_models_index(es: Seq<Expr>)
    ensures
        models(es).len() == es.len(),
        forall|i: int| 0 <= i < es.len() ==> #[trigger] models(es)[i] == model(es[i]),
    decreases es.len(),
{
    if es.len() > 0 {
        lemma_models_index(es.drop_last());
    }
}

/// A copy of `e`.
pub fn clone_expr(e: &Expr) -> (r: Expr)
    ensures
        r@ == e@,
    decreases e,
{
    match e {
        Expr::Var(v) => Expr::Var(*v),
        Expr::Const(c) => Expr::Const(*c),
        Expr::Not(x) => Expr::Not(Box::new(clone_expr(x))),
        Expr::Scale(c, x) => Expr::Scale(*c, Box::new(clone_expr(x))),
        Expr::And(es) => Expr::And(clone_exprs(es)),
        Expr::Or(es) => Expr::Or(clone_exprs(es)),
        Expr::Xor(es) => Expr::Xor(clone_exprs(es)),
        Expr::Add(es) => Expr::Add(clone_exprs(es)),
        Expr::Mul(es) => Expr::Mul(clone_exprs(es)),
    }
}

/// A copy of every expression of `es`.
pub fn clone_exprs(es: &Vec<Expr>) -> (r: Vec<Expr>)
    ensures
        models(r@) == models(es@),
    decreases es,
{
    let mut out: Vec<Expr> = Vec::new();
    let mut i: usize = 0;
    while i < es.len()
        invariant
            i <= es.len(),
            models(out@) == models(es@.take(i as int)),
        decreases es.len() - i,
    {
        let c = clone_expr(&es[i]);
        let ghost prev = out@;
        out.push(c);
        proof {
            assert(out@.drop_last() =~= prev);
            assert(es@.take(i + 1).drop_last() =~= es@.take(i as int));
        }
        i += 1;
    }
    assert(es@.take(i as int) =~= es@);
    out
}


/// `models` distributes over `push`.
pub proof fn lemma_models_push(es: Seq<Expr>, x: Expr)
    ensures
        models(es.push(x)) == models(es).push(model(x)),
{
    assert(es.push(x).drop_last() =~= es);
}

/// `models` distributes over concatenation.
pub proof fn lemma_models_concat(a: Seq<Expr>, b: Seq<Expr>)
    ensures
        models(a + b) == models(a) + models(b),
    decreases b.len(),
{
    if b.len() == 0 {
        assert(a + b =~= a);
        assert(models(a) + models(b) =~= models(a));
    } else {
        assert((a + b).drop_last() =~= a + b.drop_last());
        lemma_models_concat(a, b.drop_last());
        assert(models(a) + models(b) =~= (models(a) + models(b.drop_last())).push(model(b.last())));
    }
}

/// Folding one more term applies `op` to it.
pub proof fn lemma_fold_push(op: Op, ts: Seq<Term>, x: Term, vars: Seq<u64>)
    ensures
        eval_fold(op, ts.push(x), vars) == apply(op, eval_fold(op, ts, vars), eval(x, vars)),
        sizes(ts.push(x)) == sizes(ts) + size(x),
{
    assert(ts.push(x).drop_last() =~= ts);
}

/// `sizes` distributes over concatenation.
pub proof fn lemma_sizes_concat(a: Seq<Term>, b: Seq<Term>)
    ensures
        sizes(a + b) == sizes(a) + sizes(b),
    decreases b.len(),
{
    if b.len() == 0 {
        assert(a + b =~= a);
    } else {
        assert((a + b).drop_last() =~= a + b.drop_last());
        lemma_sizes_concat(a, b.drop_last());
    }
}

/// Every variable of `t` has an index below `n`.
pub open spec fn vars_below(t: Term, n: nat) -> bool
    decreases t,
{
    match t {
        Term::Var(v) => v < n,
        Term::Const(_) => true,
        Term::Not(x) | Term::Scale(_, x) => vars_below(*x, n),
        Term::And(ts) | Term::Or(ts) | Term::Xor(ts) | Term::Add(ts) | Term::Mul(ts) =>
            all_vars_below(ts, n),
    }
}

/// Every variable of every term of `ts` has an index below `n`.
pub open spec fn all_vars_below(ts: Seq<Term>, n: nat) -> bool
    decreases ts,
{
    forall|i: int| 0 <= i < ts.len() ==> vars_below(#[trigger] ts[i], n)
}

/// `t` uses only the variables `bitwise` operators combine (no arithmetic, no
/// constants).
pub open spec fn is_bitwise_term(t: Term) -> bool
    decreases t,
{
    match t {
        Term::Var(_) => true,
        Term::Not(x) => is_bitwise_term(*x),
        Term::And(ts) | Term::Or(ts) | Term::Xor(ts) => all_bitwise_terms(ts),
        _ => false,
    }
}

/// Every term of `ts` is purely bitwise.
pub open spec fn all_bitwise_terms(ts: Seq<Term>) -> bool
    decreases ts,
{
    forall|i: int| 0 <= i < ts.len() ==> is_bitwise_term(#[trigger] ts[i])
}

/// Every variable of `t` is listed in `allowed`.
pub open spec fn vars_in(t: Term, allowed: Seq<usize>) -> bool
    decreases t,
{
    match t {
        Term::Var(v) => allowed.contains(v),
        Term::Const(_) => true,
        Term::Not(x) | Term::Scale(_, x) => vars_in(*x, allowed),
        Term::And(ts) | Term::Or(ts) | Term::Xor(ts) | Term::Add(ts) | Term::Mul(ts) =>
            all_vars_in(ts, allowed),
    }
}

/// Every variable of every term of `ts` is listed in `allowed`.
pub open spec fn all_vars_in(ts: Seq<Term>, allowed: Seq<usize>) -> bool
    decreases ts,
{
    forall|i: int| 0 <= i < ts.len() ==> vars_in(#[trigger] ts[i], allowed)
}

/// The 0/1 assignment of `t` variables encoded by the bits of `i`.
pub open spec fn assignment(i: nat, t: nat) -> Seq<u64> {
    Seq::new(t, |j: int| ((i as int / vstd::arithmetic::power2::pow2(j as nat) as int) % 2) as u64)
}

/// The value of `scale(c, e)` is `c` times the value of `e`.
pub proof fn lemma_eval_scale(c: u64, t: Term, vars: Seq<u64>)
    ensures
        eval(Term::Scale(c, Box::new(t)), vars) == word(c * eval(t, vars)),
        c == 1 ==> word(c * eval(t, vars)) == eval(t, vars),
        c == 0 ==> word(c * eval(t, vars)) == 0,
{
    lemma_word(c * eval(t, vars));
}

impl Clone for Expr {
    fn clone(&self) -> (r: Self)
        ensures
            r@ == self@,
    {
        clone_expr(self)
    }
}

impl Expr {
    /// Builds a constant expression.
    pub fn make_const(c: u64) -> (r: Expr)
        ensures
            r@ == Term::Const(c),
    {
        Expr::Const(c)
    }

    /// The constant zero.
    pub fn zero() -> (r: Expr)
        ensures
            r@ == Term::Const(0),
    {
        Expr::Const(0)
    }

    /// The variable of index `i`.
    pub fn var(i: usize) -> (r: Expr)
        ensures
            r@ == Term::Var(i),
    {
        Expr::Var(VarId(i))
    }

    /// Bitwise complement of `self`.
    pub fn not(self) -> (r: Expr)
        ensures
            r@ == Term::Not(Box::new(self@)),
    {
        Expr::Not(Box::new(self))
    }

    /// Bitwise exclusive or of `self` and `rhs`.
    pub fn bitxor(self, rhs: Expr) -> (r: Expr)
        ensures
            r@ == Term::Xor(seq![self@, rhs@]),
    {
        let ghost (a, b) = (self@, rhs@);
        let v = vec![self, rhs];
        proof {
            lemma_models_index(v@);
            assert(models(v@) =~= seq![a, b]);
        }
        Expr::Xor(v)
    }

    /// Bitwise and of `self` and `rhs`.
    pub fn bitand(self, rhs: Expr) -> (r: Expr)
        ensures
            r@ == Term::And(seq![self@, rhs@]),
    {
        let ghost (a, b) = (self@, rhs@);
        let v = vec![self, rhs];
        proof {
            lemma_models_index(v@);
            assert(models(v@) =~= seq![a, b]);
        }
        Expr::And(v)
    }

    /// Bitwise or of `self` and `rhs`.
    pub fn bitor(self, rhs: Expr) -> (r: Expr)
        ensures
            r@ == Term::Or(seq![self@, rhs@]),
    {
        let ghost (a, b) = (self@, rhs@);
        let v = vec![self, rhs];
        proof {
            lemma_models_index(v@);
            assert(models(v@) =~= seq![a, b]);
        }
        Expr::Or(v)
    }

    /// Sum of `self` and `rhs`.
    pub fn add(self, rhs: Expr) -> (r: Expr)
        ensures
            r@ == Term::Add(seq![self@, rhs@]),
    {
        let ghost (a, b) = (self@, rhs@);
        let v = vec![self, rhs];
        proof {
            lemma_models_index(v@);
            assert(models(v@) =~= seq![a, b]);
        }
        Expr::Add(v)
    }

    /// Arithmetic negation of `self`: its scaling by `-1`.
    pub fn neg(self) -> (r: Expr)
        ensures
            r@ == Term::Scale(u64::MAX, Box::new(self@)),
    {
        Expr::Scale(u64::MAX, Box::new(self))
    }

    /// Difference of `self` and `rhs`: `self + (-rhs)`.
    pub fn sub(self, rhs: Expr) -> (r: Expr)
        ensures
            r@ == Term::Add(seq![self@, Term::Scale(u64::MAX, Box::new(rhs@))]),
    {
        self.add(rhs.neg())
    }

    /// `c` times `e`, with the trivial coefficients folded.
    pub fn scale(c: u64, e: Expr) -> (r: Expr)
        ensures
            r@ == (if c == 0 {
                Term::Const(0)
            } else if c == 1 {
                e@
            } else {
                Term::Scale(c, Box::new(e@))
            }),
    {
        if c == 0 {
            Expr::zero()
        } else if c == 1 {
            e
        } else {
            Expr::Scale(c, Box::new(e))
        }
    }

    /// Counts the nodes of the expression.
    pub fn size(&self) -> (r: usize)
        requires
            size(self@) <= usize::MAX,
        ensures
            r == size(self@),
        decreases self,
    {
        match self {
            Expr::Var(_) | Expr::Const(_) => 1,
            Expr::Not(x) | Expr::Scale(_, x) => 1 + x.size(),
            Expr::And(es) | Expr::Or(es) | Expr::Xor(es) | Expr::Add(es) | Expr::Mul(es) => {
                1 + sizes_of(es)
            },
        }
    }

    /// The value of the expression under `vars`, on 64 bits.
    pub fn eval_bits(&self, vars: &[u64]) -> (r: VarInt)
        requires
            vars_below(self@, vars@.len()),
        ensures
            r@ == eval(self@, vars@),
        decreases self,
    {
        match self {
            Expr::Var(i) => VarInt::new(vars[i.0]),
            Expr::Const(c) => VarInt::new(*c),
            Expr::And(es) => eval_list(Op::And, es, vars),
            Expr::Or(es) => eval_list(Op::Or, es, vars),
            Expr::Xor(es) => eval_list(Op::Xor, es, vars),
            Expr::Add(es) => eval_list(Op::Add, es, vars),
            Expr::Mul(es) => eval_list(Op::Mul, es, vars),
            Expr::Scale(v, e) => VarInt::new(*v).mul(e.eval_bits(vars)),
            Expr::Not(e) => e.eval_bits(vars).not(),
        }
    }

    /// The value of the expression under `vars`, on `n` bits.
    pub fn eval(&self, vars: &[u64], n: u8) -> (r: u64)
        requires
            vars_below(self@, vars@.len()),
        ensures
            r == eval(self@, vars@) & mask_of(n as nat),
    {
        self.eval_bits(vars).get(make_mask(n))
    }

    /// Whether this expression is purely bitwise.
    pub fn is_bitwise(&self) -> (r: bool)
        ensures
            r == is_bitwise_term(self@),
        decreases self,
    {
        match self {
            Expr::Var(_) => true,
            Expr::Not(e) => e.is_bitwise(),
            Expr::And(es) | Expr::Or(es) | Expr::Xor(es) => all_bitwise(es),
            _ => false,
        }
    }

    /// Whether every variable of the expression is contained in `allowed_vars`.
    pub fn variables_in(&self, allowed_vars: &Vec<usize>) -> (r: bool)
        ensures
            r == vars_in(self@, allowed_vars@),
        decreases self,
    {
        match self {
            Expr::Const(_) => true,
            Expr::Var(i) => {
                let mut k: usize = 0;
                while k < allowed_vars.len()
                    invariant
                        k <= allowed_vars.len(),
                        self@ == Term::Var(i.0),
                        forall|j: int| 0 <= j < k ==> allowed_vars@[j] != i.0,
                    decreases allowed_vars.len() - k,
                {
                    if allowed_vars[k] == i.0 {
                        assert(allowed_vars@[k as int] == i.0);
                        assert(allowed_vars@.contains(i.0));
                        return true;
                    }
                    k += 1;
                }
                false
            },
            Expr::Not(e) | Expr::Scale(_, e) => e.variables_in(allowed_vars),
            Expr::And(es) | Expr::Or(es) | Expr::Xor(es) | Expr::Add(es) | Expr::Mul(es) => {
                all_variables_in(es, allowed_vars)
            },
        }
    }
}

/// Whether every expression of `es` is purely bitwise.
fn all_bitwise(es: &Vec<Expr>) -> (r: bool)
    ensures
        r == all_bitwise_terms(models(es@)),
    decreases es,
{
    proof {
        lemma_models_index(es@);
    }
    let mut i: usize = 0;
    while i < es.len()
        invariant
            i <= es.len(),
            models(es@).len() == es.len(),
            forall|j: int| 0 <= j < es.len() ==> #[trigger] models(es@)[j] == es@[j]@,
            forall|j: int| 0 <= j < i ==> is_bitwise_term(#[trigger] models(es@)[j]),
        decreases es.len() - i,
    {
        if !es[i].is_bitwise() {
            assert(!is_bitwise_term(models(es@)[i as int]));
            return false;
        }
        i += 1;
    }
    true
}

/// Whether every variable of every expression of `es` is in `allowed`.
fn all_variables_in(es: &Vec<Expr>, allowed: &Vec<usize>) -> (r: bool)
    ensures
        r == all_vars_in(models(es@), allowed@),
    decreases es,
{
    proof {
        lemma_models_index(es@);
    }
    let mut i: usize = 0;
    while i < es.len()
        invariant
            i <= es.len(),
            models(es@).len() == es.len(),
            forall|j: int| 0 <= j < es.len() ==> #[trigger] models(es@)[j] == es@[j]@,
            forall|j: int| 0 <= j < i ==> vars_in(#[trigger] models(es@)[j], allowed@),
        decreases es.len() - i,
    {
        if !es[i].variables_in(allowed) {
            assert(!vars_in(models(es@)[i as int], allowed@));
            return false;
        }
        i += 1;
    }
    true
}

/// The total size of a list of expressions.
fn sizes_of(es: &Vec<Expr>) -> (r: usize)
    requires
        sizes(models(es@)) < usize::MAX,
    ensures
        r == sizes(models(es@)),
    decreases es,
{
    let mut total: usize = 0;
    let mut i: usize = 0;
    while i < es.len()
        invariant
            i <= es.len(),
            sizes(models(es@)) < usize::MAX,
            total == sizes(models(es@.take(i as int))),
        decreases es.len() - i,
    {
        proof {
            lemma_models_push(es@.take(i as int), es@[i as int]);
            assert(es@.take(i + 1) =~= es@.take(i as int).push(es@[i as int]));
            lemma_models_concat(es@.take(i + 1), es@.skip(i + 1));
            assert(es@ =~= es@.take(i + 1) + es@.skip(i + 1));
            lemma_sizes_concat(models(es@.take(i + 1)), models(es@.skip(i + 1)));
            lemma_fold_push(Op::Add, models(es@.take(i as int)), es@[i as int]@, Seq::empty());
        }
        let s = es[i].size();
        total = total + s;
        i += 1;
    }
    assert(es@.take(i as int) =~= es@);
    total
}

/// `op` folded over the values of `es`.
fn eval_list(op: Op, es: &Vec<Expr>, vars: &[u64]) -> (r: VarInt)
    requires
        all_vars_below(models(es@), vars@.len()),
    ensures
        r@ == eval_fold(op, models(es@), vars@),
    decreases es,
{
    let mut acc = match op {
        Op::And => VarInt::max_value(),
        Op::Mul => VarInt::one(),
        _ => VarInt::zero(),
    };
    let mut i: usize = 0;
    while i < es.len()
        invariant
            i <= es.len(),
            all_vars_below(models(es@), vars@.len()),
            acc@ == eval_fold(op, models(es@.take(i as int)), vars@),
        decreases es.len() - i,
    {
        proof {
            lemma_models_index(es@);
            assert(models(es@)[i as int] == es@[i as int]@);
        }
        let x = es[i].eval_bits(vars);
        proof {
            lemma_models_push(es@.take(i as int), es@[i as int]);
            assert(es@.take(i + 1) =~= es@.take(i as int).push(es@[i as int]));
            lemma_fold_push(op, models(es@.take(i as int)), es@[i as int]@, vars@);
        }
        acc = match op {
            Op::And => acc.bitand(x),
            Op::Or => acc.bitor(x),
            Op::Xor => acc.bitxor(x),
            Op::Add => acc.add(x),
            Op::Mul => acc.mul(x),
        };
        i += 1;
    }
    assert(es@.take(i as int) =~= es@);
    acc
}

/// The kind of an expression node, as foreign callers see it.
#[derive(Clone, Copy, Debug, PartialEq, Eq)]
pub enum ExprTy {
    /// A variable
    Var,
    /// A constant
    Const,
    /// A bitwise not
    Not,
    /// A multiplication between a constant and an expression
    Scale,
    /// A bitwise and
    And,
    /// A bitwise or
    Or,
    /// A bitwise xor
    Xor,
    /// A sum
    Add,
    /// A product
    Mul,
}

/// The variant of an expression, used to index the rewrite patterns by the
/// node they apply to.
#[derive(Clone, Copy, Debug, PartialEq, Eq)]
pub enum Tag {
    And,
    Or,
    Xor,
    Add,
    Mul,
    Not,
    Scale,
    Var,
    Const,
}

/// The kind of the node `t`.
pub open spec fn ty_of(t: Term) -> ExprTy {
    match t {
        Term::Var(_) => ExprTy::Var,
        Term::Const(_) => ExprTy::Const,
        Term::Not(_) => ExprTy::Not,
        Term::Scale(_, _) => ExprTy::Scale,
        Term::And(_) => ExprTy::And,
        Term::Or(_) => ExprTy::Or,
        Term::Xor(_) => ExprTy::Xor,
        Term::Add(_) => ExprTy::Add,
        Term::Mul(_) => ExprTy::Mul,
    }
}

/// The tag of the node `t`.
pub open spec fn tag_of(t: Term) -> Tag {
    match t {
        Term::Var(_) => Tag::Var,
        Term::Const(_) => Tag::Const,
        Term::Not(_) => Tag::Not,
        Term::Scale(_, _) => Tag::Scale,
        Term::And(_) => Tag::And,
        Term::Or(_) => Tag::Or,
        Term::Xor(_) => Tag::Xor,
        Term::Add(_) => Tag::Add,
        Term::Mul(_) => Tag::Mul,
    }
}

impl Expr {
    /// The kind of this node.
    pub fn ty(&self) -> (r: ExprTy)
        ensures
            r == ty_of(self@),
    {
        match self {
            Expr::Var(_) => ExprTy::Var,
            Expr::Const(_) => ExprTy::Const,
            Expr::Not(_) => ExprTy::Not,
            Expr::Scale(_, _) => ExprTy::Scale,
            Expr::And(_) => ExprTy::And,
            Expr::Or(_) => ExprTy::Or,
            Expr::Xor(_) => ExprTy::Xor,
            Expr::Add(_) => ExprTy::Add,
            Expr::Mul(_) => ExprTy::Mul,
        }
    }

    /// The tag of this node.
    pub fn tag(&self) -> (r: Tag)
        ensures
            r == tag_of(self@),
    {
        match self {
            Expr::Var(_) => Tag::Var,
            Expr::Const(_) => Tag::Const,
            Expr::Not(_) => Tag::Not,
            Expr::Scale(_, _) => Tag::Scale,
            Expr::And(_) => Tag::And,
            Expr::Or(_) => Tag::Or,
            Expr::Xor(_) => Tag::Xor,
            Expr::Add(_) => Tag::Add,
            Expr::Mul(_) => Tag::Mul,
        }
    }
}

} // verus!
