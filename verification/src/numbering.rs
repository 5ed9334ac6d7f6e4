//! First-occurrence numbering: each item of a sequence gets the index at
//! which its value first appeared among the distinct values.
use vstd::prelude::*;
use vstd::set_lib::{lemma_int_range, lemma_len_subset, set_int_range};

verus! {

/// First-occurrence numbering of `k`: the id of each item, and the distinct
/// values in order of first occurrence.
pub open spec fn canon<A>(k: Seq<A>) -> (Seq<usize>, Seq<A>)
    decreases k.len(),
{
    if k.len() == 0 {
        (Seq::empty(), Seq::empty())
    } else {
        let prev = canon(k.drop_last());
        let x = k.last();
        if prev.1.contains(x) {
            (prev.0.push(prev.1.index_of(x) as usize), prev.1)
        } else {
            (prev.0.push(prev.1.len() as usize), prev.1.push(x))
        }
    }
}

/// One more item: how the numbering of `k.push(x)` extends that of `k`.
pub proof fn lemma_canon_push<A>(k: Seq<A>, x: A)
    ensures
        canon(k.push(x)).0 == canon(k).0.push(
            if canon(k).1.contains(x) { canon(k).1.index_of(x) as usize } else { canon(k).1.len() as usize },
        ),
        canon(k.push(x)).1 == (if canon(k).1.contains(x) { canon(k).1 } else { canon(k).1.push(x) }),
{
    assert(k.push(x).drop_last() =~= k);
}

/// The numbering gives each item the position of its value among the
/// distinct values, which are listed without repetition.
pub proof fn lemma_canon<A>(k: Seq<A>)
    requires
        k.len() <= usize::MAX,
    ensures
        canon(k).0.len() == k.len(),
        canon(k).1.no_duplicates(),
        canon(k).1.len() <= k.len(),
        forall|s: int| 0 <= s < k.len() ==> #[trigger] canon(k).0[s] < canon(k).1.len(),
        forall|s: int| 0 <= s < k.len() ==> canon(k).1[#[trigger] canon(k).0[s] as int] == k[s],
        forall|j: int| 0 <= j < canon(k).1.len() ==> k.contains(#[trigger] canon(k).1[j]),
    decreases k.len(),
{
    if k.len() > 0 {
        let kd = k.drop_last();
        let x = k.last();
        lemma_canon(kd);
        lemma_canon_push(kd, x);
        assert(kd.push(x) =~= k);
        let ids = canon(kd).0;
        let ds = canon(kd).1;
        if ds.contains(x) {
            let i = ds.index_of(x);
            assert(canon(k).0 == ids.push(i as usize));
            assert(canon(k).1 == ds);
            assert forall|s: int| 0 <= s < k.len() implies #[trigger] canon(k).0[s] < canon(k).1.len() && canon(
                k,
            ).1[canon(k).0[s] as int] == k[s] by {
                if s < k.len() - 1 {
                    assert(kd[s] == k[s]);
                    assert(canon(k).0[s] == ids[s]);
                } else {
                    assert(canon(k).0[s] == i as usize);
                    assert(ds[i] == x);
                }
            }
            assert forall|j: int| 0 <= j < canon(k).1.len() implies k.contains(#[trigger] canon(k).1[j]) by {
                assert(kd.contains(ds[j]));
                let t = choose|t: int| 0 <= t < kd.len() && kd[t] == ds[j];
                assert(k[t] == kd[t]);
            }
        } else {
            assert(canon(k).0 == ids.push(ds.len() as usize));
            assert(canon(k).1 == ds.push(x));
            assert(ds.push(x).no_duplicates()) by {
                assert forall|a: int, b: int| 0 <= a < ds.push(x).len() && 0 <= b < ds.push(x).len() && a
                    != b implies ds.push(x)[a] != ds.push(x)[b] by {
                    if b == ds.len() {
                        assert(ds[a] == ds.push(x)[a]);
                    } else if a == ds.len() {
                        assert(ds[b] == ds.push(x)[b]);
                    }
                }
            }
            assert forall|s: int| 0 <= s < k.len() implies #[trigger] canon(k).0[s] < canon(k).1.len() && canon(
                k,
            ).1[canon(k).0[s] as int] == k[s] by {
                if s < k.len() - 1 {
                    assert(kd[s] == k[s]);
                    assert(canon(k).0[s] == ids[s]);
                } else {
                    assert(canon(k).0[s] == ds.len() as usize);
                    assert(ds.push(x)[ds.len() as int] == x);
                }
            }
            assert forall|j: int| 0 <= j < canon(k).1.len() implies k.contains(#[trigger] canon(k).1[j]) by {
                if j < ds.len() {
                    assert(kd.contains(ds[j]));
                    let t = choose|t: int| 0 <= t < kd.len() && kd[t] == ds[j];
                    assert(k[t] == kd[t]);
                } else {
                    assert(k[k.len() - 1] == canon(k).1[j]);
                }
            }
        }
    }
}

/// Equal ids exactly for equal values.
pub proof fn lemma_canon_ids<A>(k: Seq<A>, s: int, t: int)
    requires
        k.len() <= usize::MAX,
        0 <= s < k.len(),
        0 <= t < k.len(),
    ensures
        (canon(k).0[s] == canon(k).0[t]) == (k[s] == k[t]),
{
    lemma_canon(k);
    let ds = canon(k).1;
    if k[s] == k[t] {
        let a = canon(k).0[s] as int;
        let b = canon(k).0[t] as int;
        if a != b {
            assert(ds[a] == ds[b]);
        }
    }
}

/// Every id below the number of distinct values is taken by some item.
pub proof fn lemma_canon_onto<A>(k: Seq<A>, c: usize)
    requires
        k.len() <= usize::MAX,
        c < canon(k).1.len(),
    ensures
        canon(k).0.contains(c),
{
    lemma_canon(k);
    let ds = canon(k).1;
    assert(k.contains(ds[c as int]));
    let s = choose|s: int| 0 <= s < k.len() && k[s] == ds[c as int];
    assert(ds[canon(k).0[s] as int] == k[s]);
    assert(canon(k).0[s] == c);
}

/// Numbering a refinement of `ka` never gives fewer distinct values, and
/// gives strictly more unless the two numberings coincide.
pub proof fn lemma_canon_refines<A, B>(ka: Seq<A>, kb: Seq<B>)
    requires
        ka.len() == kb.len(),
        ka.len() <= usize::MAX,
        forall|s: int, t: int| 0 <= s < kb.len() && 0 <= t < kb.len() && #[trigger] kb[s] == #[trigger] kb[t]
            ==> ka[s] == ka[t],
    ensures
        canon(kb).1.len() >= canon(ka).1.len(),
        canon(ka).0 == canon(kb).0 ==> canon(ka).1.len() == canon(kb).1.len(),
        canon(ka).0 != canon(kb).0 ==> canon(kb).1.len() > canon(ka).1.len(),
    decreases ka.len(),
{
    if ka.len() > 0 {
        let ka1 = ka.drop_last();
        let kb1 = kb.drop_last();
        assert forall|s: int, t: int| 0 <= s < kb1.len() && 0 <= t < kb1.len() && #[trigger] kb1[s]
            == #[trigger] kb1[t] implies ka1[s] == ka1[t] by {
            assert(kb1[s] == kb[s] && kb1[t] == kb[t] && ka1[s] == ka[s] && ka1[t] == ka[t]);
        }
        lemma_canon_refines(ka1, kb1);
        lemma_canon(ka1);
        lemma_canon(kb1);
        let xa = ka.last();
        let xb = kb.last();
        lemma_canon_push(ka1, xa);
        lemma_canon_push(kb1, xb);
        assert(ka1.push(xa) =~= ka);
        assert(kb1.push(xb) =~= kb);
        assert(canon(ka) == canon(ka1.push(xa)));
        assert(canon(kb) == canon(kb1.push(xb)));
        let ida = canon(ka1).0;
        let dsa = canon(ka1).1;
        let idb = canon(kb1).0;
        let dsb = canon(kb1).1;
        let n = ka.len() - 1;
        if dsb.contains(xb) {
            let j = dsb.index_of(xb);
            assert(kb1.contains(dsb[j]));
            let t = choose|t: int| 0 <= t < kb1.len() && kb1[t] == dsb[j];
            assert(kb[t] == kb1[t]);
            assert(kb[n] == xb);
            assert(kb[t] == kb[n]);
            assert(ka[t] == ka[n]);
            assert(ka1[t] == xa);
            assert(dsa[ida[t] as int] == xa);
            assert(dsa.contains(xa));
            if ida == idb {
                assert(dsb[idb[t] as int] == xb);
                assert(dsb.index_of(xb) == idb[t] as int) by {
                    assert(dsb[j] == xb);
                    if j != idb[t] as int {
                        assert(dsb[j] == dsb[idb[t] as int]);
                    }
                }
                assert(dsa.index_of(xa) == ida[t] as int) by {
                    let i = dsa.index_of(xa);
                    assert(dsa[i] == xa);
                    if i != ida[t] as int {
                        assert(dsa[i] == dsa[ida[t] as int]);
                    }
                }
                assert(canon(ka).0 =~= canon(kb).0);
            } else {
                if canon(ka).0 == canon(kb).0 {
                    assert(ida =~= canon(ka).0.drop_last());
                    assert(idb =~= canon(kb).0.drop_last());
                }
            }
        } else {
            if ida == idb {
                if dsa.contains(xa) {
                    assert(canon(ka).0[n] < dsa.len()) by {
                        let i = dsa.index_of(xa);
                        assert(dsa[i] == xa);
                    }
                    assert(canon(kb).0 == idb.push(dsb.len() as usize));
                    assert(idb.len() == n);
                    assert(canon(kb).0[n] == dsb.len());
                }
            } else {
                if canon(ka).0 == canon(kb).0 {
                    assert(ida =~= canon(ka).0.drop_last());
                    assert(idb =~= canon(kb).0.drop_last());
                }
            }
        }
    }
}

/// A sequence of distinct numbers below `bound` has at most `bound` items.
pub proof fn lemma_distinct_below(s: Seq<usize>, bound: int)
    requires
        0 <= bound,
        s.no_duplicates(),
        forall|i: int| 0 <= i < s.len() ==> #[trigger] s[i] < bound,
    ensures
        s.len() <= bound,
{
    let t = s.map_values(|x: usize| x as int);
    assert(t.no_duplicates()) by {
        assert forall|i: int, j: int| 0 <= i < t.len() && 0 <= j < t.len() && i != j implies t[i] != t[j] by {
            assert(s[i] != s[j]);
        }
    }
    t.unique_seq_to_set();
    lemma_int_range(0, bound);
    assert(t.to_set().subset_of(set_int_range(0, bound))) by {
        assert forall|x: int| t.to_set().contains(x) implies set_int_range(0, bound).contains(x) by {
            assert(t.contains(x));
            let i = choose|i: int| 0 <= i < t.len() && t[i] == x;
            assert(s[i] < bound);
        }
    }
    lemma_len_subset(t.to_set(), set_int_range(0, bound));
}

/// The numbering of a prefix is the prefix of the numbering.
pub proof fn lemma_canon_prefix<A>(k: Seq<A>, p: int)
    requires
        0 <= p <= k.len(),
    ensures
        canon(k.take(p)).0 == canon(k).0.take(p),
    decreases k.len() - p,
{
    if p == k.len() {
        assert(k.take(p) =~= k);
        lemma_canon_len(k);
        assert(canon(k).0.take(p) =~= canon(k).0);
    } else {
        lemma_canon_len(k);
        lemma_canon_prefix(k, p + 1);
        lemma_canon_push(k.take(p), k[p]);
        assert(k.take(p).push(k[p]) =~= k.take(p + 1));
        assert(canon(k.take(p)).0 =~= canon(k.take(p + 1)).0.drop_last());
        assert(canon(k).0.take(p + 1).drop_last() =~= canon(k).0.take(p));
    }
}

/// The numbering has one id per item.
pub proof fn lemma_canon_len<A>(k: Seq<A>)
    ensures
        canon(k).0.len() == k.len(),
    decreases k.len(),
{
    if k.len() > 0 {
        lemma_canon_len(k.drop_last());
    }
}

/// `0, 1, .., d - 1`.
pub open spec fn first_ids(d: nat) -> Seq<usize> {
    Seq::new(d, |i: int| i as usize)
}

/// A sequence that is its own first-occurrence numbering meets its values
/// in the order 0, 1, 2, ..: the values met in each prefix are the first
/// few numbers.
pub proof fn lemma_self_numbered(w: Seq<usize>, p: int)
    requires
        canon(w).0 == w,
        w.len() <= usize::MAX,
        0 <= p <= w.len(),
    ensures
        canon(w.take(p)).1 == first_ids(canon(w.take(p)).1.len()),
    decreases p,
{
    if p > 0 {
        lemma_self_numbered(w, p - 1);
        let prev = w.take(p - 1);
        let x = w[p - 1];
        lemma_canon_push(prev, x);
        assert(prev.push(x) =~= w.take(p));
        lemma_canon_prefix(w, p);
        assert(canon(w.take(p)).0[p - 1] == w[p - 1]) by {
            assert(canon(w).0.take(p)[p - 1] == w[p - 1]);
        }
        lemma_canon_len(prev);
        let ds = canon(prev).1;
        lemma_canon(prev);
        if ds.contains(x) {
        } else {
            assert(x == ds.len());
            assert(ds.push(x) =~= first_ids(ds.len() + 1));
        }
    } else {
        assert(w.take(0) =~= Seq::<usize>::empty());
        assert(canon(w.take(0)).1 =~= first_ids(0));
    }
}

/// In a self-numbered sequence each value is either one met before or the
/// count of values met before.
pub proof fn lemma_self_numbered_step(w: Seq<usize>, p: int)
    requires
        canon(w).0 == w,
        w.len() <= usize::MAX,
        0 <= p < w.len(),
    ensures
        ({
            let d = canon(w.take(p)).1.len();
            &&& w[p] <= d
            &&& w[p] < d ==> w.take(p).contains(w[p])
            &&& w[p] == d ==> !w.take(p).contains(w[p])
            &&& canon(w.take(p + 1)).1.len() == if w[p] < d {
                d
            } else {
                d + 1
            }
        }),
{
    lemma_self_numbered(w, p);
    let prev = w.take(p);
    let x = w[p];
    lemma_canon_push(prev, x);
    assert(prev.push(x) =~= w.take(p + 1));
    lemma_canon_prefix(w, p + 1);
    assert(canon(w.take(p + 1)).0[p] == w[p]) by {
        assert(canon(w).0.take(p + 1)[p] == w[p]);
    }
    lemma_canon(prev);
    lemma_canon_len(prev);
    let ds = canon(prev).1;
    if ds.contains(x) {
        let i = ds.index_of(x);
        assert(ds[i] == x);
        assert(x < ds.len());
        assert(prev.contains(ds[i]));
    } else {
        assert(x == ds.len());
        if prev.contains(x) {
            let q = choose|q: int| 0 <= q < prev.len() && prev[q] == x;
            assert(ds[canon(prev).0[q] as int] == prev[q]);
        }
    }
}

} // verus!
