//! Submask reasoning over word terms: a term's 2-adic valuation (how many
//! low bits are certainly zero) as an expression over its roots' valuations,
//! and the facts "left is a submask of right" that terms imply.
use vstd::prelude::*;
use crate::expr::VarId;
use crate::varint::{make_mask, mask_of};

verus! {

/// How far the rewrites go before anything is known below the low bit.
#[derive(Clone, Copy, Debug, PartialEq, Eq)]
pub enum AboveLowResult {
    Unknown,
    AtLeastLowBit,
    AboveLowBit,
}

/// What one pass of the submask rewrites looked at and did.
#[derive(Clone, Debug, PartialEq, Eq)]
pub struct P8PassMetrics {
    pub anchor_candidates: usize,
    pub anchors_recognized: usize,
    pub above_lowbit_queries: usize,
    pub above_lowbit_proved: usize,
    pub rewrites: usize,
}

impl P8PassMetrics {
    /// Nothing counted yet.
    pub fn new() -> (r: Self)
        ensures
            r.anchor_candidates == 0 && r.anchors_recognized == 0 && r.above_lowbit_queries == 0
                && r.above_lowbit_proved == 0 && r.rewrites == 0,
    {
        P8PassMetrics {
            anchor_candidates: 0,
            anchors_recognized: 0,
            above_lowbit_queries: 0,
            above_lowbit_proved: 0,
            rewrites: 0,
        }
    }
}

/// A term over words: a root variable, a constant, a power-of-two multiple,
/// a bitwise or, or an arithmetic negation.
#[derive(Debug, PartialEq, Eq, PartialOrd, Ord, Hash)]
pub enum WordTerm {
    Root(VarId),
    Constant(u64),
    Pow2Scale { shift: u8, inner: Box<WordTerm> },
    Or(Box<WordTerm>, Box<WordTerm>),
    Neg(Box<WordTerm>),
}

/// The position of a term's variant in the declaration order.
pub open spec fn variant_rank(t: WordTerm) -> int {
    match t {
        WordTerm::Root(_) => 0,
        WordTerm::Constant(_) => 1,
        WordTerm::Pow2Scale { .. } => 2,
        WordTerm::Or(_, _) => 3,
        WordTerm::Neg(_) => 4,
    }
}

/// The order of terms: by variant in declaration order, then by fields from
/// the first, lexicographically.
pub open spec fn term_lt(a: WordTerm, b: WordTerm) -> bool
    decreases a,
{
    if variant_rank(a) != variant_rank(b) {
        variant_rank(a) < variant_rank(b)
    } else {
        match (a, b) {
            (WordTerm::Root(x), WordTerm::Root(y)) => x.0 < y.0,
            (WordTerm::Constant(x), WordTerm::Constant(y)) => x < y,
            (WordTerm::Pow2Scale { shift: s1, inner: i1 }, WordTerm::Pow2Scale { shift: s2, inner: i2 }) => s1
                < s2 || (s1 == s2 && term_lt(*i1, *i2)),
            (WordTerm::Or(l1, r1), WordTerm::Or(l2, r2)) => term_lt(*l1, *l2) || (*l1 == *l2 && term_lt(*r1, *r2)),
            (WordTerm::Neg(i1), WordTerm::Neg(i2)) => term_lt(*i1, *i2),
            _ => false,
        }
    }
}

impl WordTerm {
    /// `2^shift * inner`.
    pub fn pow2_scale(shift: u8, inner: Self) -> (r: Self)
        ensures
            r == (WordTerm::Pow2Scale { shift, inner: Box::new(inner) }),
    {
        WordTerm::Pow2Scale { shift, inner: Box::new(inner) }
    }

    /// `left | right`, the smaller operand first.
    pub fn or(left: Self, right: Self) -> (r: Self)
        ensures
            !term_lt(right, left) ==> r == WordTerm::Or(Box::new(left), Box::new(right)),
            term_lt(right, left) ==> r == WordTerm::Or(Box::new(right), Box::new(left)),
    {
        if !term_less(&right, &left) {
            WordTerm::Or(Box::new(left), Box::new(right))
        } else {
            WordTerm::Or(Box::new(right), Box::new(left))
        }
    }

    /// `-inner`.
    pub fn neg(inner: Self) -> (r: Self)
        ensures
            r == WordTerm::Neg(Box::new(inner)),
    {
        WordTerm::Neg(Box::new(inner))
    }

    /// A copy of the term.
    pub fn copy(&self) -> (r: Self)
        ensures
            r == *self,
        decreases self,
    {
        match self {
            WordTerm::Root(v) => WordTerm::Root(*v),
            WordTerm::Constant(c) => WordTerm::Constant(*c),
            WordTerm::Pow2Scale { shift, inner } => WordTerm::Pow2Scale { shift: *shift, inner: Box::new(inner.copy()) },
            WordTerm::Or(l, r) => WordTerm::Or(Box::new(l.copy()), Box::new(r.copy())),
            WordTerm::Neg(i) => WordTerm::Neg(Box::new(i.copy())),
        }
    }
}

/// Whether two terms are equal.
pub fn term_equal(a: &WordTerm, b: &WordTerm) -> (r: bool)
    ensures
        r == (*a == *b),
    decreases a,
{
    match (a, b) {
        (WordTerm::Root(x), WordTerm::Root(y)) => x.0 == y.0,
        (WordTerm::Constant(x), WordTerm::Constant(y)) => *x == *y,
        (WordTerm::Pow2Scale { shift: s1, inner: i1 }, WordTerm::Pow2Scale { shift: s2, inner: i2 }) => *s1 == *s2
            && term_equal(i1, i2),
        (WordTerm::Or(l1, r1), WordTerm::Or(l2, r2)) => term_equal(l1, l2) && term_equal(r1, r2),
        (WordTerm::Neg(i1), WordTerm::Neg(i2)) => term_equal(i1, i2),
        _ => false,
    }
}

/// The rank of a term's variant.
fn rank_of(t: &WordTerm) -> (r: u8)
    ensures
        r as int == variant_rank(*t),
{
    match t {
        WordTerm::Root(_) => 0,
        WordTerm::Constant(_) => 1,
        WordTerm::Pow2Scale { .. } => 2,
        WordTerm::Or(_, _) => 3,
        WordTerm::Neg(_) => 4,
    }
}

/// Whether `a` comes before `b` in the order of terms.
pub fn term_less(a: &WordTerm, b: &WordTerm) -> (r: bool)
    ensures
        r == term_lt(*a, *b),
    decreases a,
{
    let (ra, rb) = (rank_of(a), rank_of(b));
    if ra != rb {
        return ra < rb;
    }
    match (a, b) {
        (WordTerm::Root(x), WordTerm::Root(y)) => x.0 < y.0,
        (WordTerm::Constant(x), WordTerm::Constant(y)) => *x < *y,
        (WordTerm::Pow2Scale { shift: s1, inner: i1 }, WordTerm::Pow2Scale { shift: s2, inner: i2 }) => *s1 < *s2
            || (*s1 == *s2 && term_less(i1, i2)),
        (WordTerm::Or(l1, r1), WordTerm::Or(l2, r2)) => term_less(l1, l2) || (term_equal(l1, l2) && term_less(r1, r2)),
        (WordTerm::Neg(i1), WordTerm::Neg(i2)) => term_less(i1, i2),
        _ => false,
    }
}

/// The 2-adic valuation of a term as an expression over the valuations of
/// its roots: a root's, a constant, a shift by a power of two capped at the
/// width, or the least of two.
#[derive(Debug, PartialEq, Eq)]
pub enum ValuationExpr {
    Root(VarId),
    Constant(u8),
    Shift { inner: Box<ValuationExpr>, amount: u8 },
    Min(Box<ValuationExpr>, Box<ValuationExpr>),
}

/// The lesser of two numbers.
pub open spec fn min_u8(a: u8, b: u8) -> u8 {
    if a <= b {
        a
    } else {
        b
    }
}

/// `a + b`, or 255 when that overflows.
pub open spec fn saturating_add_u8(a: u8, b: u8) -> u8 {
    if a + b > 255 {
        255
    } else {
        (a + b) as u8
    }
}

/// The value of `e` when the roots have the valuations `roots`.
pub open spec fn valuation_value(e: ValuationExpr, roots: Seq<u8>, width: u8) -> u8
    decreases e,
{
    match e {
        ValuationExpr::Root(v) => roots[v.0 as int],
        ValuationExpr::Constant(c) => c,
        ValuationExpr::Shift { inner, amount } => min_u8(
            width,
            saturating_add_u8(valuation_value(*inner, roots, width), amount),
        ),
        ValuationExpr::Min(l, r) => min_u8(valuation_value(*l, roots, width), valuation_value(*r, roots, width)),
    }
}

/// Every root of `e` is below `n`.
pub open spec fn roots_below(e: ValuationExpr, n: int) -> bool
    decreases e,
{
    match e {
        ValuationExpr::Root(v) => v.0 < n,
        ValuationExpr::Constant(_) => true,
        ValuationExpr::Shift { inner, .. } => roots_below(*inner, n),
        ValuationExpr::Min(l, r) => roots_below(*l, n) && roots_below(*r, n),
    }
}

/// The larger of two optional numbers, `None` below every number.
pub open spec fn max_option(a: Option<usize>, b: Option<usize>) -> Option<usize> {
    match (a, b) {
        (None, _) => b,
        (Some(x), None) => Some(x),
        (Some(x), Some(y)) => Some(if x >= y { x } else { y }),
    }
}

/// The largest root of `e`.
pub open spec fn max_root_of(e: ValuationExpr) -> Option<usize>
    decreases e,
{
    match e {
        ValuationExpr::Root(v) => Some(v.0),
        ValuationExpr::Constant(_) => None,
        ValuationExpr::Shift { inner, .. } => max_root_of(*inner),
        ValuationExpr::Min(l, r) => max_option(max_root_of(*l), max_root_of(*r)),
    }
}

/// Every root of `e` is at most its largest root.
pub proof fn lemma_max_root(e: ValuationExpr, n: int)
    ensures
        (match max_root_of(e) {
            Some(m) => m < n,
            None => true,
        }) ==> roots_below(e, n),
    decreases e,
{
    match e {
        ValuationExpr::Shift { inner, .. } => lemma_max_root(*inner, n),
        ValuationExpr::Min(l, r) => {
            lemma_max_root(*l, n);
            lemma_max_root(*r, n);
        },
        _ => {},
    }
}

impl ValuationExpr {
    /// The valuation `self` gives when the roots have the valuations `roots`.
    pub fn evaluate(&self, roots: &[u8], width: u8) -> (r: u8)
        requires
            roots_below(*self, roots.len() as int),
        ensures
            r == valuation_value(*self, roots@, width),
        decreases self,
    {
        match self {
            ValuationExpr::Root(variable) => roots[variable.0],
            ValuationExpr::Constant(value) => *value,
            ValuationExpr::Shift { inner, amount } => {
                let v = inner.evaluate(roots, width);
                let s = if v as u16 + *amount as u16 > 255 {
                    255
                } else {
                    v + *amount
                };
                if width <= s {
                    width
                } else {
                    s
                }
            },
            ValuationExpr::Min(left, right) => {
                let a = left.evaluate(roots, width);
                let b = right.evaluate(roots, width);
                if a <= b {
                    a
                } else {
                    b
                }
            },
        }
    }

    /// The largest root of `self`.
    pub fn max_root(&self) -> (r: Option<usize>)
        ensures
            r == max_root_of(*self),
        decreases self,
    {
        match self {
            ValuationExpr::Root(variable) => Some(variable.0),
            ValuationExpr::Constant(_) => None,
            ValuationExpr::Shift { inner, .. } => inner.max_root(),
            ValuationExpr::Min(left, right) => {
                let a = left.max_root();
                let b = right.max_root();
                match (a, b) {
                    (None, _) => b,
                    (Some(x), None) => Some(x),
                    (Some(x), Some(y)) => Some(if x >= y { x } else { y }),
                }
            },
        }
    }
}

/// The valuation of a constant: the number of its low zero bits within
/// `width`, or `width` for zero.
pub open spec fn constant_valuation(value: u64, width: u8) -> u8 {
    let v = value & mask_of(width as nat);
    if v == 0 {
        width
    } else {
        min_u8(vstd::std_specs::bits::u64_trailing_zeros(v) as u8, width)
    }
}

/// The valuation expression of a term, when it has one (a negation has
/// none).
pub open spec fn valuation_of(term: WordTerm, width: u8) -> Option<ValuationExpr>
    decreases term,
{
    match term {
        WordTerm::Root(v) => Some(ValuationExpr::Root(v)),
        WordTerm::Constant(c) => Some(ValuationExpr::Constant(constant_valuation(c, width))),
        WordTerm::Pow2Scale { shift, inner } => match valuation_of(*inner, width) {
            Some(x) => Some(ValuationExpr::Shift { inner: Box::new(x), amount: shift }),
            None => None,
        },
        WordTerm::Or(l, r) => match (valuation_of(*l, width), valuation_of(*r, width)) {
            (Some(a), Some(b)) => Some(ValuationExpr::Min(Box::new(a), Box::new(b))),
            _ => None,
        },
        WordTerm::Neg(_) => None,
    }
}

/// The valuation expression of `term`.
pub fn valuation(term: &WordTerm, width: u8) -> (r: Option<ValuationExpr>)
    ensures
        r == valuation_of(*term, width),
    decreases term,
{
    match term {
        WordTerm::Root(variable) => Some(ValuationExpr::Root(*variable)),
        WordTerm::Constant(value) => {
            let v = *value & make_mask(width);
            if v == 0 {
                Some(ValuationExpr::Constant(width))
            } else {
                proof {
                    vstd::std_specs::bits::axiom_u64_trailing_zeros(v);
                }
                let tz = v.trailing_zeros() as u8;
                Some(ValuationExpr::Constant(if tz <= width { tz } else { width }))
            }
        },
        WordTerm::Pow2Scale { shift, inner } => match valuation(inner, width) {
            Some(x) => Some(ValuationExpr::Shift { inner: Box::new(x), amount: *shift }),
            None => None,
        },
        WordTerm::Or(left, right) => {
            let a = valuation(left, width);
            let b = valuation(right, width);
            match (a, b) {
                (Some(a), Some(b)) => Some(ValuationExpr::Min(Box::new(a), Box::new(b))),
                _ => None,
            }
        },
        WordTerm::Neg(_) => None,
    }
}

/// Every root of the term `t` is below `n`.
pub open spec fn term_roots_below(t: WordTerm, n: int) -> bool
    decreases t,
{
    match t {
        WordTerm::Root(v) => v.0 < n,
        WordTerm::Constant(_) => true,
        WordTerm::Pow2Scale { inner, .. } => term_roots_below(*inner, n),
        WordTerm::Or(l, r) => term_roots_below(*l, n) && term_roots_below(*r, n),
        WordTerm::Neg(i) => term_roots_below(*i, n),
    }
}

/// The roots of a term's valuation are roots of the term.
pub proof fn lemma_valuation_roots(t: WordTerm, width: u8, n: int)
    requires
        term_roots_below(t, n),
        valuation_of(t, width) is Some,
    ensures
        match max_root_of(valuation_of(t, width)->Some_0) {
            Some(m) => m < n,
            None => true,
        },
    decreases t,
{
    match t {
        WordTerm::Pow2Scale { inner, .. } => lemma_valuation_roots(*inner, width, n),
        WordTerm::Or(l, r) => {
            lemma_valuation_roots(*l, width, n);
            lemma_valuation_roots(*r, width, n);
        },
        _ => {},
    }
}

/// Every valuation in `roots` is at most `width`.
pub open spec fn assignment_ok(roots: Seq<u8>, width: u8) -> bool {
    forall|i: int| 0 <= i < roots.len() ==> #[trigger] roots[i] <= width
}

/// `l` and `r` have one value for every way of completing `prefix` with `k`
/// valuations up to `width`.
pub open spec fn agree_everywhere(l: ValuationExpr, r: ValuationExpr, prefix: Seq<u8>, k: nat, width: u8) -> bool {
    forall|tail: Seq<u8>|
        tail.len() == k && #[trigger] assignment_ok(tail, width) ==> valuation_value(l, prefix + tail, width)
            == valuation_value(r, prefix + tail, width)
}

/// The number of roots two valuations speak of: one more than the largest.
pub open spec fn root_count(l: ValuationExpr, r: ValuationExpr) -> nat {
    match max_option(max_root_of(l), max_root_of(r)) {
        Some(m) => (m + 1) as nat,
        None => 0,
    }
}

/// Two terms have valuations, and these agree for every valuation of the
/// roots up to `width`.
pub open spec fn valuations_agree(left: WordTerm, right: WordTerm, width: u8) -> bool {
    match (valuation_of(left, width), valuation_of(right, width)) {
        (Some(a), Some(b)) => agree_everywhere(a, b, Seq::empty(), root_count(a, b), width),
        _ => false,
    }
}

/// Completing a prefix with `k` valuations is choosing the next one, then
/// `k - 1` more.
proof fn lemma_agree_split(l: ValuationExpr, r: ValuationExpr, prefix: Seq<u8>, k: nat, width: u8)
    requires
        k >= 1,
    ensures
        agree_everywhere(l, r, prefix, k, width) == forall|v: u8| v <= width ==> #[trigger] agree_everywhere(
            l,
            r,
            prefix.push(v),
            (k - 1) as nat,
            width,
        ),
{
    if agree_everywhere(l, r, prefix, k, width) {
        assert forall|v: u8| v <= width implies #[trigger] agree_everywhere(l, r, prefix.push(v), (k - 1) as nat, width) by {
            assert forall|tail: Seq<u8>| tail.len() == k - 1 && #[trigger] assignment_ok(tail, width) implies valuation_value(
                l,
                prefix.push(v) + tail,
                width,
            ) == valuation_value(r, prefix.push(v) + tail, width) by {
                let full = seq![v] + tail;
                assert(prefix + full =~= prefix.push(v) + tail);
                assert(assignment_ok(full, width)) by {
                    assert forall|i: int| 0 <= i < full.len() implies #[trigger] full[i] <= width by {
                        if i > 0 {
                            assert(full[i] == tail[i - 1]);
                        }
                    }
                }
            }
        }
    }
    if forall|v: u8| v <= width ==> #[trigger] agree_everywhere(l, r, prefix.push(v), (k - 1) as nat, width) {
        assert forall|tail: Seq<u8>| tail.len() == k && #[trigger] assignment_ok(tail, width) implies valuation_value(
            l,
            prefix + tail,
            width,
        ) == valuation_value(r, prefix + tail, width) by {
            let v = tail[0];
            let rest = tail.drop_first();
            assert(prefix + tail =~= prefix.push(v) + rest);
            assert(v <= width);
            assert(agree_everywhere(l, r, prefix.push(v), (k - 1) as nat, width));
            assert(assignment_ok(rest, width)) by {
                assert forall|i: int| 0 <= i < rest.len() implies #[trigger] rest[i] <= width by {
                    assert(rest[i] == tail[i + 1]);
                }
            }
        }
    }
}

/// Whether `left` and `right` agree on every completion of the first
/// `index` valuations in `roots`.
fn agree_from(index: usize, roots: &mut Vec<u8>, width: u8, left: &ValuationExpr, right: &ValuationExpr) -> (r: bool)
    requires
        index <= old(roots).len(),
        roots_below(*left, old(roots).len() as int),
        roots_below(*right, old(roots).len() as int),
    ensures
        final(roots).len() == old(roots).len(),
        final(roots)@.take(index as int) == old(roots)@.take(index as int),
        r == agree_everywhere(
            *left,
            *right,
            old(roots)@.take(index as int),
            (old(roots).len() - index) as nat,
            width,
        ),
    decreases old(roots).len() - index,
{
    let ghost prefix = roots@.take(index as int);
    let ghost n = roots.len();
    if index == roots.len() {
        proof {
            let e = Seq::<u8>::empty();
            assert(prefix + e =~= roots@);
            assert(assignment_ok(e, width));
            assert forall|tail: Seq<u8>| tail.len() == 0 && #[trigger] assignment_ok(tail, width) implies prefix + tail
                == roots@ by {
                assert(tail =~= e);
            }
        }
        return left.evaluate(roots.as_slice(), width) == right.evaluate(roots.as_slice(), width);
    }
    proof {
        lemma_agree_split(*left, *right, prefix, (roots.len() - index) as nat, width);
    }
    let mut value: u16 = 0;
    while value <= width as u16
        invariant
            roots.len() == n,
            n == old(roots).len(),
            prefix == old(roots)@.take(index as int),
            index < roots.len(),
            roots@.take(index as int) == prefix,
            roots_below(*left, roots.len() as int),
            roots_below(*right, roots.len() as int),
            value <= width as u16 + 1,
            forall|v: u8| v < value ==> #[trigger] agree_everywhere(
                *left,
                *right,
                prefix.push(v),
                (roots.len() - index - 1) as nat,
                width,
            ),
        decreases width as u16 + 1 - value,
    {
        roots.set(index, value as u8);
        proof {
            assert(roots@.take(index + 1) =~= prefix.push(value as u8));
        }
        let ghost before_call = roots@;
        let ok = agree_from(index + 1, roots, width, left, right);
        proof {
            assert(roots@.take(index as int) =~= prefix) by {
                assert(roots@.take(index + 1).take(index as int) =~= roots@.take(index as int));
                assert(before_call.take(index + 1).take(index as int) =~= before_call.take(index as int));
            }
        }
        if !ok {
            proof {
                lemma_agree_split(*left, *right, prefix, (roots.len() - index) as nat, width);
                assert(!agree_everywhere(*left, *right, prefix.push(value as u8), (roots.len() - index - 1) as nat, width));
            }
            return false;
        }
        value += 1;
    }
    true
}

/// Whether the two terms have valuations that agree for every valuation of
/// their roots up to `width`.
pub fn valuations_equal(left: &WordTerm, right: &WordTerm, width: u8) -> (r: bool)
    requires
        term_roots_below(*left, usize::MAX as int),
        term_roots_below(*right, usize::MAX as int),
    ensures
        r == valuations_agree(*left, *right, width),
{
    let a = valuation(left, width);
    let b = valuation(right, width);
    match (a, b) {
        (Some(l), Some(r)) => {
            proof {
                lemma_valuation_roots(*left, width, usize::MAX as int);
                lemma_valuation_roots(*right, width, usize::MAX as int);
            }
            let count: usize = match (l.max_root(), r.max_root()) {
                (None, None) => 0,
                (Some(x), None) => x + 1,
                (None, Some(y)) => y + 1,
                (Some(x), Some(y)) => if x >= y {
                    x + 1
                } else {
                    y + 1
                },
            };
            proof {
                lemma_max_root(l, count as int);
                lemma_max_root(r, count as int);
            }
            let mut roots: Vec<u8> = Vec::new();
            let mut i: usize = 0;
            while i < count
                invariant
                    i <= count,
                    roots.len() == i,
                decreases count - i,
            {
                roots.push(0);
                i += 1;
            }
            let result = agree_from(0, &mut roots, width, &l, &r);
            proof {
                assert(roots@.take(0) =~= Seq::<u8>::empty());
            }
            result
        },
        _ => false,
    }
}

/// The term `t` and all the terms inside it.
pub open spec fn subterms(t: WordTerm) -> Set<WordTerm>
    decreases t,
{
    match t {
        WordTerm::Pow2Scale { inner, .. } => set![t].union(subterms(*inner)),
        WordTerm::Or(l, r) => set![t].union(subterms(*l)).union(subterms(*r)),
        WordTerm::Neg(i) => set![t].union(subterms(*i)),
        _ => set![t],
    }
}

/// With every term, `s` holds all the terms inside it.
pub open spec fn subterm_closed(s: Seq<WordTerm>) -> bool {
    forall|i: int| 0 <= i < s.len() ==> #[trigger] subterms(s[i]).subset_of(s.to_set())
}

/// A term is among its subterms.
proof fn lemma_subterms_self(t: WordTerm)
    ensures
        subterms(t).contains(t),
{
}

/// Whether `t` is in `v`.
pub fn contains_term(v: &Vec<WordTerm>, t: &WordTerm) -> (r: bool)
    ensures
        r == v@.contains(*t),
{
    let mut i: usize = 0;
    while i < v.len()
        invariant
            i <= v.len(),
            forall|j: int| 0 <= j < i ==> v@[j] != *t,
        decreases v.len() - i,
    {
        if term_equal(&v[i], t) {
            assert(v@[i as int] == *t);
            return true;
        }
        i += 1;
    }
    false
}

/// Adds `t` to the closed list `output` unless it is there already.
fn add_closed(output: &mut Vec<WordTerm>, t: WordTerm)
    requires
        old(output)@.no_duplicates(),
        subterms(t).subset_of(old(output)@.to_set().insert(t)),
        subterm_closed(old(output)@),
    ensures
        final(output)@.no_duplicates(),
        final(output)@.to_set() == old(output)@.to_set().insert(t),
        subterm_closed(final(output)@),
{
    if !contains_term(output, &t) {
        let ghost before = output@;
        output.push(t);
        proof {
            before.lemma_push_to_set_commute(t);
            assert(output@ == before.push(t));
            assert(output@.no_duplicates()) by {
                assert forall|a: int, b: int| 0 <= a < output@.len() && 0 <= b < output@.len() && a != b implies output@[a]
                    != output@[b] by {
                    if a < before.len() && b < before.len() {
                        assert(before[a] != before[b]);
                    } else if a < before.len() {
                        assert(before.contains(before[a]));
                    } else {
                        assert(before.contains(before[b]));
                    }
                }
            }
            assert forall|i: int| 0 <= i < output@.len() implies #[trigger] subterms(output@[i]).subset_of(
                output@.to_set(),
            ) by {
                if i < before.len() {
                    assert(output@[i] == before[i]);
                    assert(subterms(before[i]).subset_of(before.to_set()));
                }
            }
        }
    } else {
        proof {
            assert(output@.to_set() =~= output@.to_set().insert(t));
        }
    }
}

impl WordTerm {
    /// Adds the term and all the terms inside it to `output`, which holds
    /// each term once, with all the terms inside it.
    pub fn collect_subterms(&self, output: &mut Vec<WordTerm>)
        requires
            old(output)@.no_duplicates(),
            subterm_closed(old(output)@),
        ensures
            final(output)@.no_duplicates(),
            subterm_closed(final(output)@),
            final(output)@.to_set() == old(output)@.to_set().union(subterms(*self)),
        decreases self,
    {
        if contains_term(output, self) {
            proof {
                let i = choose|i: int| 0 <= i < output@.len() && output@[i] == *self;
                assert(subterms(output@[i]).subset_of(output@.to_set()));
                assert(output@.to_set() =~= output@.to_set().union(subterms(*self)));
            }
            return;
        }
        let ghost start = output@.to_set();
        match self {
            WordTerm::Pow2Scale { inner, .. } => {
                inner.collect_subterms(output);
            },
            WordTerm::Or(left, right) => {
                left.collect_subterms(output);
                right.collect_subterms(output);
            },
            WordTerm::Neg(inner) => {
                inner.collect_subterms(output);
            },
            _ => {},
        }
        let ghost mid = output@.to_set();
        proof {
            assert(subterms(*self).subset_of(mid.insert(*self)));
        }
        add_closed(output, self.copy());
        proof {
            assert(output@.to_set() =~= start.union(subterms(*self)));
        }
    }
}

/// A pair of terms: the first is a submask of the second.
pub type SubmaskFact = (WordTerm, WordTerm);

/// The submask facts found among a set of terms, at one width.
pub struct SubmaskDomain {
    pub width: u8,
    pub terms: Vec<WordTerm>,
    pub facts: Vec<SubmaskFact>,
}

/// The terms of `roots` and all the terms inside them.
pub open spec fn all_subterms(roots: Seq<WordTerm>) -> Set<WordTerm>
    decreases roots.len(),
{
    if roots.len() == 0 {
        Set::empty()
    } else {
        all_subterms(roots.drop_last()).union(subterms(roots.last()))
    }
}

impl SubmaskDomain {
    /// The domain of the terms of `roots` and the terms inside them, with no
    /// facts yet.
    pub fn new(width: u8, roots: Vec<WordTerm>) -> (r: Self)
        ensures
            r.width == width,
            r.terms@.no_duplicates(),
            r.terms@.to_set() == all_subterms(roots@),
            r.facts@.len() == 0,
    {
        let mut terms: Vec<WordTerm> = Vec::new();
        let mut i: usize = 0;
        proof {
            assert(terms@.to_set() =~= Set::<WordTerm>::empty());
            assert(roots@.take(0) =~= Seq::<WordTerm>::empty());
        }
        while i < roots.len()
            invariant
                i <= roots.len(),
                terms@.no_duplicates(),
                subterm_closed(terms@),
                terms@.to_set() == all_subterms(roots@.take(i as int)),
            decreases roots.len() - i,
        {
            roots[i].collect_subterms(&mut terms);
            proof {
                assert(roots@.take(i + 1).drop_last() =~= roots@.take(i as int));
            }
            i += 1;
        }
        proof {
            assert(roots@.take(i as int) =~= roots@);
        }
        SubmaskDomain { width, terms, facts: Vec::new() }
    }
}

/// The facts the `or` terms give: each operand is a submask of the whole.
pub open spec fn or_facts(terms: Set<WordTerm>) -> Set<SubmaskFact> {
    Set::new(
        |f: SubmaskFact|
            terms.contains(f.1) && f.1 is Or && (f.0 == *f.1->Or_0 || f.0 == *f.1->Or_1),
    )
}

/// Negating both sides of a fact whose sides have equal valuations gives the
/// fact the other way round.
pub open spec fn negation_facts(facts: Set<SubmaskFact>, width: u8) -> Set<SubmaskFact> {
    Set::new(
        |f: SubmaskFact|
            f.0 is Neg && f.1 is Neg && facts.contains((*f.1->Neg_0, *f.0->Neg_0)) && valuations_agree(
                *f.1->Neg_0,
                *f.0->Neg_0,
                width,
            ),
    )
}

/// One pass of saturation.
pub open spec fn saturate_step(facts: Set<SubmaskFact>, terms: Set<WordTerm>, width: u8) -> Set<SubmaskFact> {
    facts.union(or_facts(terms)).union(negation_facts(facts.union(or_facts(terms)), width))
}

/// Every root of every term is a valid index.
pub open spec fn terms_rooted(terms: Seq<WordTerm>) -> bool {
    forall|i: int| 0 <= i < terms.len() ==> term_roots_below(#[trigger] terms[i], usize::MAX as int)
}

/// Every root of every fact is a valid index.
pub open spec fn facts_rooted(facts: Seq<SubmaskFact>) -> bool {
    forall|i: int|
        0 <= i < facts.len() ==> term_roots_below(#[trigger] facts[i].0, usize::MAX as int) && term_roots_below(
            facts[i].1,
            usize::MAX as int,
        )
}

/// Whether two facts are equal.
fn fact_equal(a: &SubmaskFact, b: &SubmaskFact) -> (r: bool)
    ensures
        r == (*a == *b),
{
    term_equal(&a.0, &b.0) && term_equal(&a.1, &b.1)
}

/// Whether `f` is in `v`.
fn contains_fact(v: &Vec<SubmaskFact>, f: &SubmaskFact) -> (r: bool)
    ensures
        r == v@.contains(*f),
{
    let mut i: usize = 0;
    while i < v.len()
        invariant
            i <= v.len(),
            forall|j: int| 0 <= j < i ==> v@[j] != *f,
        decreases v.len() - i,
    {
        if fact_equal(&v[i], f) {
            assert(v@[i as int] == *f);
            return true;
        }
        i += 1;
    }
    false
}

/// Adds `f` to `v` unless it is there already.
fn add_fact(v: &mut Vec<SubmaskFact>, f: SubmaskFact)
    requires
        old(v)@.no_duplicates(),
    ensures
        final(v)@.no_duplicates(),
        final(v)@.to_set() == old(v)@.to_set().insert(f),
        final(v)@.len() == old(v)@.len() + if old(v)@.contains(f) {
            0int
        } else {
            1int
        },
        forall|i: int| 0 <= i < old(v)@.len() ==> #[trigger] final(v)@[i] == old(v)@[i],
        !old(v)@.contains(f) ==> final(v)@ == old(v)@.push(f),
{
    if !contains_fact(v, &f) {
        let ghost before = v@;
        v.push(f);
        proof {
            before.lemma_push_to_set_commute(f);
            assert(v@ == before.push(f));
            assert(v@.no_duplicates()) by {
                assert forall|a: int, b: int| 0 <= a < v@.len() && 0 <= b < v@.len() && a != b implies v@[a] != v@[b] by {
                    if a < before.len() && b < before.len() {
                        assert(before[a] != before[b]);
                    } else if a < before.len() {
                        assert(before.contains(before[a]));
                    } else {
                        assert(before.contains(before[b]));
                    }
                }
            }
        }
    } else {
        proof {
            assert(v@.to_set() =~= v@.to_set().insert(f));
        }
    }
}

/// A copy of a fact.
fn copy_fact(f: &SubmaskFact) -> (r: SubmaskFact)
    ensures
        r == *f,
{
    (f.0.copy(), f.1.copy())
}

/// The terms inside a rooted term are rooted.
proof fn lemma_subterm_rooted(t: WordTerm, u: WordTerm)
    requires
        term_roots_below(t, usize::MAX as int),
        subterms(t).contains(u),
    ensures
        term_roots_below(u, usize::MAX as int),
    decreases t,
{
    match t {
        WordTerm::Pow2Scale { inner, .. } => {
            if u != t {
                lemma_subterm_rooted(*inner, u);
            }
        },
        WordTerm::Or(l, r) => {
            if u != t {
                if subterms(*l).contains(u) {
                    lemma_subterm_rooted(*l, u);
                } else {
                    lemma_subterm_rooted(*r, u);
                }
            }
        },
        WordTerm::Neg(i) => {
            if u != t {
                lemma_subterm_rooted(*i, u);
            }
        },
        _ => {},
    }
}

/// The facts the `or` terms among `terms` give.
fn collect_or_facts(terms: &Vec<WordTerm>) -> (r: Vec<SubmaskFact>)
    requires
        terms_rooted(terms@),
    ensures
        r@.no_duplicates(),
        r@.to_set() == or_facts(terms@.to_set()),
        facts_rooted(r@),
{
    let mut out: Vec<SubmaskFact> = Vec::new();
    let mut i: usize = 0;
    proof {
        assert(out@.to_set() =~= Set::<SubmaskFact>::empty());
    }
    while i < terms.len()
        invariant
            i <= terms.len(),
            terms_rooted(terms@),
            out@.no_duplicates(),
            out@.to_set() == or_facts(terms@.take(i as int).to_set()),
            facts_rooted(out@),
        decreases terms.len() - i,
    {
        let ghost before = out@;
        let t = &terms[i];
        assert(term_roots_below(terms@[i as int], usize::MAX as int));
        match t {
            WordTerm::Or(left, right) => {
                add_fact(&mut out, (left.copy(), t.copy()));
                add_fact(&mut out, (right.copy(), t.copy()));
            },
            _ => {},
        }
        proof {
            assert(terms@.take(i + 1) =~= terms@.take(i as int).push(terms@[i as int]));
            terms@.take(i as int).lemma_push_to_set_commute(terms@[i as int]);
            assert(out@.to_set() =~= or_facts(terms@.take(i + 1).to_set()));
            assert forall|k: int| 0 <= k < out@.len() implies term_roots_below(#[trigger] out@[k].0, usize::MAX as int)
                && term_roots_below(out@[k].1, usize::MAX as int) by {
                if k >= before.len() {
                    assert(out@.to_set().contains(out@[k]));
                }
            }
        }
        i += 1;
    }
    proof {
        assert(terms@.take(i as int) =~= terms@);
    }
    out
}

impl SubmaskDomain {
    /// Runs at most two passes of inference: every `or` term gives its
    /// operands as submasks of it, and every fact whose sides have equal
    /// valuations gives the fact between their negations the other way
    /// round; stops early when a pass adds nothing.
    pub fn saturate(&mut self)
        requires
            old(self).facts@.no_duplicates(),
            terms_rooted(old(self).terms@),
            facts_rooted(old(self).facts@),
        ensures
            final(self).width == old(self).width,
            final(self).terms == old(self).terms,
            final(self).facts@.no_duplicates(),
            facts_rooted(final(self).facts@),
            final(self).facts@.to_set() == saturate_step(
                saturate_step(old(self).facts@.to_set(), old(self).terms@.to_set(), old(self).width),
                old(self).terms@.to_set(),
                old(self).width,
            ),
    {
        let ghost f0 = self.facts@.to_set();
        let ghost terms = self.terms@.to_set();
        let ghost width = self.width;
        let mut pass: usize = 0;
        while pass < 2
            invariant
                pass <= 2,
                self.width == width,
                self.terms@.to_set() == terms,
                self.terms == old(self).terms,
                self.width == old(self).width,
                f0 == old(self).facts@.to_set(),
                terms == old(self).terms@.to_set(),
                width == old(self).width,
                self.facts@.no_duplicates(),
                terms_rooted(self.terms@),
                facts_rooted(self.facts@),
                pass == 0 ==> self.facts@.to_set() == f0,
                pass == 1 ==> self.facts@.to_set() == saturate_step(f0, terms, width),
                pass == 2 ==> self.facts@.to_set() == saturate_step(saturate_step(f0, terms, width), terms, width),
            decreases 2 - pass,
        {
            let ghost current = self.facts@.to_set();
            let mut inferred = collect_or_facts(&self.terms);
            let mut all: Vec<SubmaskFact> = Vec::new();
            let mut k: usize = 0;
            while k < self.facts.len()
                invariant
                    k <= self.facts.len(),
                    all@ == self.facts@.take(k as int),
                decreases self.facts.len() - k,
            {
                all.push(copy_fact(&self.facts[k]));
                k += 1;
                assert(all@ =~= self.facts@.take(k as int));
            }
            assert(self.facts@.take(k as int) =~= self.facts@);
            let mut k: usize = 0;
            while k < inferred.len()
                invariant
                    k <= inferred.len(),
                    all@ == self.facts@ + inferred@.take(k as int),
                decreases inferred.len() - k,
            {
                all.push(copy_fact(&inferred[k]));
                k += 1;
                assert(all@ =~= self.facts@ + inferred@.take(k as int));
            }
            assert(inferred@.take(k as int) =~= inferred@);
            let ghost base = inferred@.to_set();
            let ghost pool = current.union(base);
            proof {
                assert(all@.to_set() =~= pool) by {
                    assert forall|f: SubmaskFact| all@.to_set().contains(f) == pool.contains(f) by {
                        if all@.contains(f) {
                            let j = choose|j: int| 0 <= j < all@.len() && all@[j] == f;
                            if j >= self.facts@.len() {
                                assert(inferred@[j - self.facts@.len()] == f);
                            }
                        }
                        if self.facts@.contains(f) {
                            let j = choose|j: int| 0 <= j < self.facts@.len() && self.facts@[j] == f;
                            assert(all@[j] == f);
                        }
                        if inferred@.contains(f) {
                            let j = choose|j: int| 0 <= j < inferred@.len() && inferred@[j] == f;
                            assert(all@[self.facts@.len() + j] == f);
                        }
                    }
                }
                assert forall|i: int| 0 <= i < all@.len() implies term_roots_below(#[trigger] all@[i].0, usize::MAX as int)
                    && term_roots_below(all@[i].1, usize::MAX as int) by {
                    if i < self.facts@.len() {
                        assert(all@[i] == self.facts@[i]);
                    } else {
                        assert(all@[i] == inferred@[i - self.facts@.len()]);
                    }
                }
            }
            let mut k: usize = 0;
            while k < all.len()
                invariant
                    k <= all.len(),
                    inferred@.no_duplicates(),
                    facts_rooted(inferred@),
                    forall|i: int|
                        0 <= i < all@.len() ==> term_roots_below(#[trigger] all@[i].0, usize::MAX as int)
                            && term_roots_below(all@[i].1, usize::MAX as int),
                    inferred@.to_set() == base.union(
                        negation_facts(all@.take(k as int).to_set(), width),
                    ),
                    self.width == width,
                decreases all.len() - k,
            {
                let ghost before = inferred@;
                let f = &all[k];
                assert(term_roots_below(all@[k as int].0, usize::MAX as int));
                if valuations_equal(&f.0, &f.1, self.width) {
                    add_fact(&mut inferred, (WordTerm::neg(f.1.copy()), WordTerm::neg(f.0.copy())));
                }
                proof {
                    assert(all@.take(k + 1) =~= all@.take(k as int).push(all@[k as int]));
                    all@.take(k as int).lemma_push_to_set_commute(all@[k as int]);
                    assert(inferred@.to_set() =~= base.union(negation_facts(all@.take(k + 1).to_set(), width)));
                    assert forall|i: int| 0 <= i < inferred@.len() implies term_roots_below(
                        #[trigger] inferred@[i].0,
                        usize::MAX as int,
                    ) && term_roots_below(inferred@[i].1, usize::MAX as int) by {
                        if i < before.len() {
                            assert(inferred@[i] == before[i]);
                        }
                    }
                }
                k += 1;
            }
            proof {
                assert(all@.take(k as int) =~= all@);
            }
            let before_len = self.facts.len();
            let mut k: usize = 0;
            while k < inferred.len()
                invariant
                    k <= inferred.len(),
                    self.facts@.no_duplicates(),
                    facts_rooted(self.facts@),
                    facts_rooted(inferred@),
                    self.facts@.to_set() == current.union(inferred@.take(k as int).to_set()),
                    self.facts@.len() >= before_len,
                    self.facts@.len() == before_len ==> self.facts@.to_set() == current,
                    self.width == width,
                    self.terms@.to_set() == terms,
                    self.terms == old(self).terms,
                    self.width == old(self).width,
                decreases inferred.len() - k,
            {
                let ghost before = self.facts@;
                add_fact(&mut self.facts, copy_fact(&inferred[k]));
                proof {
                    assert(inferred@.take(k + 1) =~= inferred@.take(k as int).push(inferred@[k as int]));
                    inferred@.take(k as int).lemma_push_to_set_commute(inferred@[k as int]);
                    assert(self.facts@.to_set() =~= current.union(inferred@.take(k + 1).to_set()));
                    assert forall|i: int| 0 <= i < self.facts@.len() implies term_roots_below(
                        #[trigger] self.facts@[i].0,
                        usize::MAX as int,
                    ) && term_roots_below(self.facts@[i].1, usize::MAX as int) by {
                        if i < before.len() {
                            assert(self.facts@[i] == before[i]);
                        } else {
                            assert(term_roots_below(inferred@[k as int].0, usize::MAX as int));
                            assert(self.facts@ == before.push(inferred@[k as int]));
                            assert(self.facts@[i] == inferred@[k as int]);
                        }
                    }
                }
                k += 1;
            }
            proof {
                assert(inferred@.take(k as int) =~= inferred@);
                assert(self.facts@.to_set() =~= saturate_step(current, terms, width));
            }
            if self.facts.len() == before_len {
                proof {
                    assert(saturate_step(current, terms, width) == current);
                }
                return;
            }
            pass += 1;
        }
    }

    /// The smaller side of `left & right` when one is known to be a submask
    /// of the other: `left` when it is a submask of `right`, else `right`
    /// when it is a submask of `left`.
    pub fn simplify_and(&self, left: &WordTerm, right: &WordTerm) -> (r: Option<WordTerm>)
        ensures
            self.facts@.contains((*left, *right)) ==> r == Some(*left),
            !self.facts@.contains((*left, *right)) && self.facts@.contains((*right, *left)) ==> r == Some(*right),
            !self.facts@.contains((*left, *right)) && !self.facts@.contains((*right, *left)) ==> r is None,
    {
        if contains_fact(&self.facts, &(left.copy(), right.copy())) {
            Some(left.copy())
        } else if contains_fact(&self.facts, &(right.copy(), left.copy())) {
            Some(right.copy())
        } else {
            None
        }
    }
}

} // verus!
