//! The variables an expression uses.
use vstd::prelude::*;
use crate::expr::{Expr, Term, VarId, models, lemma_models_push};

verus! {

/// `t` uses the variable `v`.
pub open spec fn uses_var(t: Term, v: usize) -> bool
    decreases t,
{
    match t {
        Term::Var(w) => w == v,
        Term::Const(_) => false,
        Term::Not(x) | Term::Scale(_, x) => uses_var(*x, v),
        Term::And(ts) | Term::Or(ts) | Term::Xor(ts) | Term::Add(ts) | Term::Mul(ts) => any_uses_var(ts, v),
    }
}

/// Some term of `ts` uses the variable `v`.
pub open spec fn any_uses_var(ts: Seq<Term>, v: usize) -> bool
    decreases ts,
{
    if ts.len() == 0 {
        false
    } else {
        any_uses_var(ts.drop_last(), v) || uses_var(ts.last(), v)
    }
}

/// `s` is in strictly ascending order.
pub open spec fn ascending(s: Seq<usize>) -> bool {
    forall|i: int, j: int| 0 <= i < j < s.len() ==> s[i] < s[j]
}

/// Adds `v` to the ascending list `acc` unless it is there already.
fn insert_sorted(acc: &mut Vec<usize>, v: usize)
    requires
        ascending(old(acc)@),
    ensures
        ascending(final(acc)@),
        forall|w: usize| #![trigger final(acc)@.contains(w)] final(acc)@.contains(w) <==> old(acc)@.contains(w) || w == v,
{
    let mut k: usize = 0;
    while k < acc.len() && acc[k] < v
        invariant
            k <= acc.len(),
            acc@ == old(acc)@,
            forall|i: int| 0 <= i < k ==> acc@[i] < v,
        decreases acc.len() - k,
    {
        k += 1;
    }
    if k < acc.len() && acc[k] == v {
        assert(acc@[k as int] == v);
        assert(acc@.contains(v));
        return;
    }
    let ghost before = acc@;
    acc.insert(k, v);
    assert forall|w: usize| acc@.contains(w) <==> before.contains(w) || w == v by {
        if acc@.contains(w) {
            let i = choose|i: int| 0 <= i < acc@.len() && acc@[i] == w;
            if i < k {
                assert(before[i] == w);
            } else if i > k {
                assert(before[i - 1] == w);
            }
        }
        if before.contains(w) {
            let i = choose|i: int| 0 <= i < before.len() && before[i] == w;
            if i < k {
                assert(acc@[i] == w);
            } else {
                assert(acc@[i + 1] == w);
            }
        }
        if w == v {
            assert(acc@[k as int] == v);
        }
    }
    assert forall|i: int, j: int| 0 <= i < j < acc@.len() implies acc@[i] < acc@[j] by {
        if j < k {
            assert(acc@[i] == before[i] && acc@[j] == before[j]);
        } else if j == k {
            assert(acc@[i] == before[i]);
        } else if i < k {
            assert(acc@[i] == before[i] && acc@[j] == before[j - 1]);
            assert(before[k as int] >= v);
            if j - 1 > k {
                assert(before[k as int] < before[j - 1]);
            }
        } else if i == k {
            assert(acc@[j] == before[j - 1]);
            if j - 1 > k {
                assert(before[k as int] < before[j - 1]);
            }
            assert(before[k as int] != v);
        } else {
            assert(acc@[i] == before[i - 1] && acc@[j] == before[j - 1]);
        }
    }
}

/// Adds the variables of `e` to the ascending list `acc`.
fn collect_vars(e: &Expr, acc: &mut Vec<usize>)
    requires
        ascending(old(acc)@),
    ensures
        ascending(final(acc)@),
        forall|w: usize| #![trigger final(acc)@.contains(w)] final(acc)@.contains(w) <==> old(acc)@.contains(w) || uses_var(e@, w),
    decreases e,
{
    match e {
        Expr::Var(v) => {
            assert(e@ == Term::Var(v.0));
            assert forall|w: usize| uses_var(e@, w) <==> w == v.0 by {}
            insert_sorted(&mut *acc, v.0);
        },
        Expr::Const(_) => {
        },
        Expr::Not(x) => {
            assert(e@ == Term::Not(Box::new(x@)));
            collect_vars(x, &mut *acc);
        },
        Expr::Scale(c, x) => {
            assert(e@ == Term::Scale(*c, Box::new(x@)));
            collect_vars(x, &mut *acc);
        },
        Expr::And(es) => {
            assert(e@ == Term::And(models(es@)));
            collect_vars_in(es, &mut *acc);
        },
        Expr::Or(es) => {
            assert(e@ == Term::Or(models(es@)));
            collect_vars_in(es, &mut *acc);
        },
        Expr::Xor(es) => {
            assert(e@ == Term::Xor(models(es@)));
            collect_vars_in(es, &mut *acc);
        },
        Expr::Add(es) => {
            assert(e@ == Term::Add(models(es@)));
            collect_vars_in(es, &mut *acc);
        },
        Expr::Mul(es) => {
            assert(e@ == Term::Mul(models(es@)));
            collect_vars_in(es, &mut *acc);
        },
    }
}

/// Adds the variables of the operands `es` to the ascending list `acc`.
fn collect_vars_in(es: &Vec<Expr>, acc: &mut Vec<usize>)
    requires
        ascending(old(acc)@),
    ensures
        ascending(final(acc)@),
        forall|w: usize| #![trigger final(acc)@.contains(w)] final(acc)@.contains(w) <==> old(acc)@.contains(w) || any_uses_var(models(es@), w),
    decreases es,
{
    let ghost start = acc@;
    let mut i: usize = 0;
    proof {
        assert(models(es@.take(0)) =~= Seq::<Term>::empty());
    }
    while i < es.len()
        invariant
            i <= es.len(),
            ascending(acc@),
            forall|w: usize| #![trigger acc@.contains(w)] acc@.contains(w) <==> start.contains(w) || any_uses_var(models(es@.take(i as int)), w),
        decreases es.len() - i,
    {
        collect_vars(&es[i], &mut *acc);
        proof {
            lemma_models_push(es@.take(i as int), es@[i as int]);
            assert(es@.take(i + 1) =~= es@.take(i as int).push(es@[i as int]));
            let pre = models(es@.take(i as int));
            let cur = models(es@.take(i + 1));
            assert(cur == pre.push(es@[i as int]@));
            assert(cur.drop_last() =~= pre);
            assert(cur.last() == es@[i as int]@);
            assert forall|w: usize| any_uses_var(cur, w) == (any_uses_var(pre, w) || uses_var(es@[i as int]@, w)) by {}
        }
        i += 1;
    }
    assert(es@.take(i as int) =~= es@);
}

impl Expr {
    /// The variables the expression uses, each once, in ascending order of
    /// index.
    pub fn get_vars(&self) -> (r: Vec<VarId>)
        ensures
            forall|i: int, j: int| 0 <= i < j < r.len() ==> r@[i].0 < r@[j].0,
            forall|v: usize| uses_var(self@, v) <==> exists|i: int| 0 <= i < r.len() && #[trigger] r@[i].0 == v,
    {
        let mut acc: Vec<usize> = Vec::new();
        collect_vars(self, &mut acc);
        let mut out: Vec<VarId> = Vec::new();
        let mut i: usize = 0;
        while i < acc.len()
            invariant
                i <= acc.len(),
                ascending(acc@),
                out.len() == i,
                forall|k: int| 0 <= k < i ==> out@[k].0 == acc@[k],
            decreases acc.len() - i,
        {
            out.push(VarId(acc[i]));
            i += 1;
        }
        assert forall|a: int, b: int| 0 <= a < b < out.len() implies out@[a].0 < out@[b].0 by {
            assert(out@[a].0 == acc@[a] && out@[b].0 == acc@[b]);
        }
        assert forall|v: usize| uses_var(self@, v) <==> exists|i: int| 0 <= i < out.len() && #[trigger] out@[i].0 == v by {
            let c = acc@.contains(v);
            assert(c <==> Seq::<usize>::empty().contains(v) || uses_var(self@, v));
            if uses_var(self@, v) {
                let k = choose|k: int| 0 <= k < acc@.len() && acc@[k] == v;
                assert(0 <= k < out.len() && out@[k].0 == v);
            }
            if exists|i: int| 0 <= i < out.len() && #[trigger] out@[i].0 == v {
                let k = choose|k: int| 0 <= k < out.len() && #[trigger] out@[k].0 == v;
                assert(acc@[k] == v);
                assert(acc@.contains(v));
            }
        }
        out
    }
}

} // verus!
