//! Laws of the folding of linear encodings back into bitwise operators.
use vstd::prelude::*;
use crate::expr::{Term, size, sizes};
use crate::prettify::{
    peel_spec, minus_two, as_binary_spec, binary_at, binary_from, others, as_not_spec, not_at, prettify_spec, prettify_all,
    map_pretty,
};
use crate::product::scale_term;

verus! {

/// Peeling never makes a term larger.
proof fn lemma_peel_size(t: Term)
    ensures
        size(peel_spec(t)) <= size(t),
    decreases t,
{
    match t {
        Term::And(ts) | Term::Or(ts) | Term::Xor(ts) | Term::Add(ts) | Term::Mul(ts) => if ts.len() == 1 {
            lemma_peel_size(ts[0]);
            assert(ts.drop_last() =~= Seq::<Term>::empty());
            assert(sizes(Seq::<Term>::empty()) == 0);
            assert(ts.last() == ts[0]);
            assert(sizes(ts) == sizes(ts.drop_last()) + size(ts.last()));
            assert(sizes(ts) == size(ts[0]));
        },
        _ => {},
    }
}

/// The size of a pair of terms.
proof fn lemma_pair_sizes(a: Term, b: Term)
    ensures
        sizes(seq![a, b]) == size(a) + size(b),
{
    let s = seq![a, b];
    let s1 = seq![a];
    assert(s.drop_last() =~= s1);
    assert(s.last() == b);
    assert(s1.drop_last() =~= Seq::<Term>::empty());
    assert(s1.last() == a);
    assert(sizes(Seq::<Term>::empty()) == 0);
    assert(sizes(s1) == sizes(s1.drop_last()) + size(s1.last()));
    assert(sizes(s) == sizes(s.drop_last()) + size(s.last()));
}

/// The three terms `x`, `y`, `z` in the order `p` names (one of the six).
pub open spec fn arranged(p: int, x: Term, y: Term, z: Term) -> Seq<Term> {
    if p == 0 {
        seq![x, y, z]
    } else if p == 1 {
        seq![x, z, y]
    } else if p == 2 {
        seq![y, x, z]
    } else if p == 3 {
        seq![y, z, x]
    } else if p == 4 {
        seq![z, x, y]
    } else {
        seq![z, y, x]
    }
}

/// An operand of the sum other than the conjunction term decides nothing:
/// it cannot be a scaled conjunction of the other two, one of which holds
/// it.
proof fn lemma_operand_decides_nothing(terms: Seq<Term>, i: int, a: Term, b: Term, k: u64, mask: u64)
    requires
        terms.len() == 3,
        0 <= i < 3,
        terms[i] == a || terms[i] == b,
        terms.contains(Term::Scale(k, Box::new(Term::And(seq![a, b])))),
        terms[others(i).0] == Term::Scale(k, Box::new(Term::And(seq![a, b])))
            || terms[others(i).1] == Term::Scale(k, Box::new(Term::And(seq![a, b]))),
    ensures
        binary_at(terms, i, mask) is None,
{
    let s = Term::Scale(k, Box::new(Term::And(seq![a, b])));
    lemma_pair_sizes(a, b);
    assert(size(Term::And(seq![a, b])) == 1 + sizes(seq![a, b]));
    assert(size(s) == 1 + size(Term::And(seq![a, b])));
    assert(size(s) == 2 + size(a) + size(b));
    match terms[i] {
        Term::Scale(coeff, inner) => match *inner {
            Term::And(ops) => if ops.len() == 2 {
                lemma_pair_sizes(ops[0], ops[1]);
                assert(ops =~= seq![ops[0], ops[1]]);
                lemma_peel_size(ops[0]);
                lemma_peel_size(ops[1]);
                assert(size(*inner) == 1 + sizes(ops));
                assert(size(terms[i]) == 1 + size(*inner));
                assert(size(terms[i]) == 2 + size(ops[0]) + size(ops[1]));
                assert(peel_spec(s) == s);
            },
            _ => {},
        },
        _ => {},
    }
}

/// The fold of a sum does not depend on the order of its terms: a sum of
/// `a`, `b` and `k * (a & b)`, in any of the six orders, is `a | b` when `k`
/// is `-1` and `a ^ b` when `k` is `-2` on the width of `mask`.
pub proof fn lemma_binary_fold_any_order(a: Term, b: Term, k: u64, mask: u64, p: int)
    requires
        0 <= p < 6,
    ensures
        ({
            let terms = arranged(p, a, b, Term::Scale(k, Box::new(Term::And(seq![a, b]))));
            &&& k & mask == mask ==> as_binary_spec(Term::Add(terms), mask) == Some(
                Term::Or(seq![peel_spec(a), peel_spec(b)]),
            )
            &&& (k & mask != mask && k & mask == minus_two(mask)) ==> as_binary_spec(Term::Add(terms), mask) == Some(
                Term::Xor(seq![peel_spec(a), peel_spec(b)]),
            )
        }),
{
    let s = Term::Scale(k, Box::new(Term::And(seq![a, b])));
    let terms = arranged(p, a, b, s);
    assert(terms.len() == 3);
    let j: int = if p == 0 || p == 2 {
        2
    } else if p == 1 || p == 3 {
        1
    } else {
        0
    };
    assert(terms[j] == s);
    assert(terms.contains(s));
    assert forall|i: int| 0 <= i < j implies binary_at(terms, i, mask) is None by {
        lemma_operand_decides_nothing(terms, i, a, b, k, mask);
    }
    let ops = seq![a, b];
    let (x, y) = others(j);
    assert(peel_spec(terms[x]) == peel_spec(a) || peel_spec(terms[x]) == peel_spec(b));
    if j == 0 {
        assert(binary_from(terms, 0, mask) == binary_at(terms, 0, mask).unwrap());
    } else if j == 1 {
        assert(binary_from(terms, 1, mask) == binary_at(terms, 1, mask).unwrap());
    } else {
        assert(binary_from(terms, 2, mask) == binary_at(terms, 2, mask).unwrap());
        assert(binary_from(terms, 1, mask) == binary_from(terms, 2, mask));
    }
}

/// The complement is folded back in either order: `-1 + k * a`, with `k`
/// and the constant both `-1` on the width of `mask`, is `~a`, whichever
/// term comes first.
pub proof fn lemma_not_fold_any_order(a: Term, c: u64, k: u64, mask: u64)
    requires
        c & mask == mask,
        k & mask == mask,
    ensures
        as_not_spec(Term::Add(seq![Term::Const(c), Term::Scale(k, Box::new(a))]), mask) == Some(
            Term::Not(Box::new(peel_spec(a))),
        ),
        as_not_spec(Term::Add(seq![Term::Scale(k, Box::new(a)), Term::Const(c)]), mask) == Some(
            Term::Not(Box::new(peel_spec(a))),
        ),
{
    let s = Term::Scale(k, Box::new(a));
    let one = seq![Term::Const(c), s];
    let two = seq![s, Term::Const(c)];
    assert(peel_spec(s) == s);
    assert(peel_spec(Term::Const(c)) == Term::Const(c));
    assert(not_at(one, 0, mask) == Some(Term::Not(Box::new(peel_spec(a)))));
    assert(not_at(two, 0, mask) is None);
    assert(not_at(two, 1, mask) == Some(Term::Not(Box::new(peel_spec(a)))));
}

/// Prettifying a list prettifies each term.
proof fn lemma_prettify_all_index(ts: Seq<Term>, mask: u64)
    ensures
        prettify_all(ts, mask).len() == ts.len(),
        forall|i: int| 0 <= i < ts.len() ==> #[trigger] prettify_all(ts, mask)[i] == prettify_spec(ts[i], mask),
    decreases ts.len(),
{
    if ts.len() > 0 {
        lemma_prettify_all_index(ts.drop_last(), mask);
        assert forall|i: int| 0 <= i < ts.len() implies #[trigger] prettify_all(ts, mask)[i] == prettify_spec(
            ts[i],
            mask,
        ) by {
            if i < ts.len() - 1 {
                assert(ts.drop_last()[i] == ts[i]);
            }
        }
    }
}

/// Prettifying a whole sum does not depend on the order of its terms: a
/// sum of `a`, `b` and `k * (a & b)`, in any of the six orders, prettifies to
/// `a | b` when `k` is `-1` and to `a ^ b` when `k` is `-2` on the width of
/// `mask`, its operands prettified (for a coefficient other than 0 and 1,
/// which a product keeps).
pub proof fn lemma_prettify_sum_any_order(a: Term, b: Term, k: u64, mask: u64, p: int)
    requires
        0 <= p < 6,
        k != 0,
        k != 1,
    ensures
        ({
            let t = Term::Add(arranged(p, a, b, Term::Scale(k, Box::new(Term::And(seq![a, b])))));
            let pa = prettify_spec(a, mask);
            let pb = prettify_spec(b, mask);
            &&& k & mask == mask ==> prettify_spec(t, mask) == Term::Or(seq![peel_spec(pa), peel_spec(pb)])
            &&& (k & mask != mask && k & mask == minus_two(mask)) ==> prettify_spec(t, mask) == Term::Xor(
                seq![peel_spec(pa), peel_spec(pb)],
            )
        }),
{
    let s = Term::Scale(k, Box::new(Term::And(seq![a, b])));
    let ts = arranged(p, a, b, s);
    let pa = prettify_spec(a, mask);
    let pb = prettify_spec(b, mask);
    let ab = Term::And(seq![a, b]);
    lemma_prettify_all_index(seq![a, b], mask);
    assert(prettify_all(seq![a, b], mask) =~= seq![pa, pb]);
    assert(map_pretty(ab, mask) == Term::And(seq![pa, pb]));
    assert(prettify_spec(ab, mask) == Term::And(seq![pa, pb]));
    let s2 = Term::Scale(k, Box::new(Term::And(seq![pa, pb])));
    assert(scale_term(k, Term::And(seq![pa, pb])) == s2);
    assert(map_pretty(s, mask) == s2);
    assert(prettify_spec(s, mask) == s2);
    lemma_prettify_all_index(ts, mask);
    assert(prettify_all(ts, mask) =~= arranged(p, pa, pb, s2));
    assert(map_pretty(Term::Add(ts), mask) == Term::Add(arranged(p, pa, pb, s2)));
    lemma_binary_fold_any_order(pa, pb, k, mask, p);
}

} // verus!
