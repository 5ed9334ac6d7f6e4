//! Tables of an expression's values: its truth table over 0/1 inputs, and
//! comparison of two expressions on randomly sampled inputs.
use vstd::prelude::*;
use vstd::arithmetic::power2::{pow2, lemma_pow2_adds, lemma_pow2_pos, lemma2_to64};
use crate::expr::{Expr, Term, assignment, eval, lemma_models_index, models, vars_below, all_vars_below};
use crate::varint::{make_mask, mask_of};
use crate::sampler::Sampler;

verus! {

/// The largest variable index of `t` (0 without variables).
pub open spec fn max_var(t: Term) -> nat
    decreases t,
{
    match t {
        Term::Var(v) => v as nat,
        Term::Const(_) => 0,
        Term::Not(x) => max_var(*x),
        Term::Scale(_, x) => max_var(*x),
        Term::And(ts) => max_vars(ts),
        Term::Or(ts) => max_vars(ts),
        Term::Xor(ts) => max_vars(ts),
        Term::Add(ts) => max_vars(ts),
        Term::Mul(ts) => max_vars(ts),
    }
}

/// The largest variable index of the terms `ts` (0 without variables).
pub open spec fn max_vars(ts: Seq<Term>) -> nat
    decreases ts,
{
    if ts.len() == 0 {
        0
    } else {
        let a = max_vars(ts.drop_last());
        let b = max_var(ts.last());
        if a < b {
            b
        } else {
            a
        }
    }
}

/// Every variable of `t` is below any bound above its largest index.
pub proof fn lemma_max_var_bounds(t: Term, n: nat)
    requires
        max_var(t) < n,
    ensures
        vars_below(t, n),
    decreases t,
{
    match t {
        Term::Not(x) => lemma_max_var_bounds(*x, n),
        Term::Scale(_, x) => lemma_max_var_bounds(*x, n),
        Term::And(ts) => lemma_max_vars_bounds(ts, n),
        Term::Or(ts) => lemma_max_vars_bounds(ts, n),
        Term::Xor(ts) => lemma_max_vars_bounds(ts, n),
        Term::Add(ts) => lemma_max_vars_bounds(ts, n),
        Term::Mul(ts) => lemma_max_vars_bounds(ts, n),
        _ => {},
    }
}

/// Every variable of the terms `ts` is below any bound above their largest
/// index.
pub proof fn lemma_max_vars_bounds(ts: Seq<Term>, n: nat)
    requires
        max_vars(ts) < n,
    ensures
        all_vars_below(ts, n),
    decreases ts,
{
    if ts.len() > 0 {
        lemma_max_vars_bounds(ts.drop_last(), n);
        lemma_max_var_bounds(ts.last(), n);
        assert forall|i: int| 0 <= i < ts.len() implies vars_below(#[trigger] ts[i], n) by {
            if i < ts.len() - 1 {
                assert(ts[i] == ts.drop_last()[i]);
            }
        }
    }
}

/// The largest variable index of the expression.
pub fn max_variable_of(expression: &Expr) -> (r: usize)
    ensures
        r == max_var(expression@),
    decreases expression,
{
    match expression {
        Expr::Var(v) => v.0,
        Expr::Const(_) => 0,
        Expr::Not(x) => max_variable_of(x),
        Expr::Scale(_, x) => max_variable_of(x),
        Expr::And(es) => max_variable_in(es),
        Expr::Or(es) => max_variable_in(es),
        Expr::Xor(es) => max_variable_in(es),
        Expr::Add(es) => max_variable_in(es),
        Expr::Mul(es) => max_variable_in(es),
    }
}

/// The largest variable index of the operands.
fn max_variable_in(es: &Vec<Expr>) -> (r: usize)
    ensures
        r == max_vars(models(es@)),
    decreases es,
{
    let mut m: usize = 0;
    let mut i: usize = 0;
    proof {
        assert(models(es@.take(0)) =~= Seq::<Term>::empty());
    }
    while i < es.len()
        invariant
            i <= es.len(),
            m == max_vars(models(es@.take(i as int))),
        decreases es.len() - i,
    {
        let v = max_variable_of(&es[i]);
        proof {
            crate::expr::lemma_models_push(es@.take(i as int), es@[i as int]);
            assert(es@.take(i + 1) =~= es@.take(i as int).push(es@[i as int]));
            let pre = models(es@.take(i as int));
            assert(pre.push(es@[i as int]@).drop_last() =~= pre);
        }
        if m < v {
            m = v;
        }
        i += 1;
    }
    proof {
        assert(es@.take(i as int) =~= es@);
    }
    m
}

/// The number of inputs a comparison of `a` and `b` draws: one past the
/// largest variable index of either.
pub open spec fn sample_len(a: Term, b: Term) -> nat {
    (if max_var(a) < max_var(b) {
        max_var(b)
    } else {
        max_var(a)
    }) + 1
}

/// `v` is an assignment of `len` inputs, each in `0..=mask`.
pub open spec fn valid_sample(v: Seq<u64>, len: nat, mask: u64) -> bool {
    v.len() == len && forall|i: int| 0 <= i < v.len() ==> v[i] <= mask
}

/// `a` and `b` have the same value through `mask` under `v`.
pub open spec fn agree_on(a: Term, b: Term, v: Seq<u64>, mask: u64) -> bool {
    eval(a, v) & mask == eval(b, v) & mask
}

/// `r` is what comparing `a` and `b` on the assignments `samples`, in order,
/// gives: `Ok` when they agree on every one, else the first assignment they
/// disagree on, with the two values through `mask`.
pub open spec fn compare_outcome(
    a: Term,
    b: Term,
    mask: u64,
    samples: Seq<Seq<u64>>,
    r: Result<(), (Vec<u64>, u64, u64)>,
) -> bool {
    match r {
        Ok(()) => forall|k: int| 0 <= k < samples.len() ==> agree_on(a, b, #[trigger] samples[k], mask),
        Err((vars, v1, v2)) => exists|k: int|
            #![trigger samples[k]]
            {
                &&& 0 <= k < samples.len()
                &&& samples[k] == vars@
                &&& forall|j: int| 0 <= j < k ==> agree_on(a, b, #[trigger] samples[j], mask)
                &&& v1 == eval(a, vars@) & mask
                &&& v2 == eval(b, vars@) & mask
                &&& v1 != v2
            },
    }
}

/// The views of a list of assignments.
pub open spec fn sample_views(samples: Seq<Vec<u64>>) -> Seq<Seq<u64>> {
    Seq::new(samples.len(), |k: int| samples[k]@)
}

/// Compares `a` and `b` on each assignment of `samples` in order, their
/// values read through `mask`: `Ok` when they agree on all, else the first
/// assignment they disagree on with the two values.
pub fn compare_on(a: &Expr, b: &Expr, mask: u64, samples: &Vec<Vec<u64>>) -> (r: Result<(), (Vec<u64>, u64, u64)>)
    requires
        forall|k: int| 0 <= k < samples.len() ==> #[trigger] samples@[k]@.len() >= sample_len(a@, b@),
    ensures
        compare_outcome(a@, b@, mask, sample_views(samples@), r),
{
    let ghost views = sample_views(samples@);
    let mut k: usize = 0;
    while k < samples.len()
        invariant
            k <= samples.len(),
            views == sample_views(samples@),
            forall|i: int| 0 <= i < samples.len() ==> #[trigger] samples@[i]@.len() >= sample_len(a@, b@),
            forall|j: int| 0 <= j < k ==> agree_on(a@, b@, #[trigger] views[j], mask),
        decreases samples.len() - k,
    {
        let vars = &samples[k];
        assert(vars@.len() >= sample_len(a@, b@));
        proof {
            lemma_max_var_bounds(a@, vars@.len());
            lemma_max_var_bounds(b@, vars@.len());
        }
        let v1 = a.eval_bits(vars.as_slice()).get(mask);
        let v2 = b.eval_bits(vars.as_slice()).get(mask);
        assert(views[k as int] == vars@);
        if v1 != v2 {
            let r = Err((vars.clone(), v1, v2));
            proof {
                assert(views[k as int] == r->Err_0.0@);
            }
            return r;
        }
        k += 1;
    }
    Ok(())
}

impl Expr {
    /// Compares two expressions on `count` random assignments of the inputs
    /// `0..=t`, `t` the largest variable index of either, each input drawn from
    /// `0..=mask`, and the values read through `mask`. A difference is returned
    /// with its inputs and the two values; `Ok` only says that no sampled
    /// assignment told them apart.
    pub fn sem_equal_masked(&self, other: &Expr, mask: u64, count: usize) -> (r: Result<(), (Vec<u64>, u64, u64)>)
        requires
            max_var(self@) < usize::MAX,
            max_var(other@) < usize::MAX,
        ensures
            exists|drawn: Seq<Seq<u64>>|
                {
                    &&& #[trigger] drawn.len() == count
                    &&& forall|k: int| 0 <= k < count ==> valid_sample(#[trigger] drawn[k], sample_len(self@, other@), mask)
                    &&& compare_outcome(self@, other@, mask, drawn, r)
                },
    {
        let mut source = Sampler::new();
        let samples = draw_samples(&mut source, self, other, mask, count);
        let r = compare_on(self, other, mask, &samples);
        proof {
            let drawn = sample_views(samples@);
            assert forall|k: int| 0 <= k < count implies valid_sample(#[trigger] drawn[k], sample_len(self@, other@), mask) by {
                assert(drawn[k] == samples@[k]@);
            }
            assert(drawn.len() == count);
        }
        r
    }

    /// `sem_equal_masked` on `n` bits.
    pub fn sem_equal(&self, other: &Expr, n: u8, samples: usize) -> (r: Result<(), (Vec<u64>, u64, u64)>)
        requires
            max_var(self@) < usize::MAX,
            max_var(other@) < usize::MAX,
        ensures
            exists|drawn: Seq<Seq<u64>>|
                {
                    &&& #[trigger] drawn.len() == samples
                    &&& forall|k: int|
                        0 <= k < samples ==> valid_sample(#[trigger] drawn[k], sample_len(self@, other@), mask_of(n as nat))
                    &&& compare_outcome(self@, other@, mask_of(n as nat), drawn, r)
                },
    {
        self.sem_equal_masked(other, make_mask(n), samples)
    }
}

/// The entries of the assignments `samples`, one after the other.
pub open spec fn flat(samples: Seq<Seq<u64>>) -> Seq<u64>
    decreases samples.len(),
{
    if samples.len() == 0 {
        Seq::empty()
    } else {
        flat(samples.drop_last()) + samples.last()
    }
}

/// `count` random assignments of the inputs `0..=t`, `t` the largest
/// variable index of `a` or `b`, each input drawn from `0..=mask`: every
/// input of every assignment is a draw of its own from `source`, in order.
fn draw_samples(source: &mut Sampler, a: &Expr, b: &Expr, mask: u64, count: usize) -> (r: Vec<Vec<u64>>)
    requires
        max_var(a@) < usize::MAX,
        max_var(b@) < usize::MAX,
    ensures
        r.len() == count,
        forall|k: int| 0 <= k < count ==> valid_sample(#[trigger] r@[k]@, sample_len(a@, b@), mask),
        final(source).log() == old(source).log() + flat(sample_views(r@)),
{
    let x = max_variable_of(a);
    let y = max_variable_of(b);
    let t = if x < y { y } else { x };
    let ghost start = source.log();
    let mut samples: Vec<Vec<u64>> = Vec::new();
    let mut k: usize = 0;
    while k < count
        invariant
            k <= count,
            t + 1 == sample_len(a@, b@),
            t < usize::MAX,
            samples.len() == k,
            forall|j: int| 0 <= j < k ==> valid_sample(#[trigger] samples@[j]@, sample_len(a@, b@), mask),
            source.log() == start + flat(sample_views(samples@)),
        decreases count - k,
    {
        let ghost before = source.log();
        let mut vars: Vec<u64> = Vec::new();
        let mut i: usize = 0;
        while i <= t
            invariant
                i <= t + 1,
                t < usize::MAX,
                vars.len() == i,
                forall|j: int| 0 <= j < vars@.len() ==> vars@[j] <= mask,
                source.log() == before + vars@,
            decreases t + 1 - i,
        {
            let w = source.word(mask);
            vars.push(w);
            i += 1;
        }
        let ghost old_views = sample_views(samples@);
        samples.push(vars);
        proof {
            let views = sample_views(samples@);
            assert(views.drop_last() =~= old_views);
            assert(views.last() == vars@);
            assert(flat(views) == flat(old_views) + vars@);
        }
        k += 1;
    }
    samples
}

/// The truth table of `t` over its first `vars` variables, read through
/// `mask`: entry `i` is the value on the 0/1 inputs given by the bits of `i`.
pub open spec fn truth_table_spec(t: Term, vars: nat, mask: u64) -> Seq<u64> {
    Seq::new(pow2(vars), |i: int| eval(t, assignment(i as nat, vars)) & mask)
}

impl Expr {
    /// The truth table of the expression over its first `t` variables, read
    /// through `mask`.
    pub fn truth_table_masked(&self, t: usize, mask: u64) -> (r: Vec<u64>)
        requires
            t < 64,
            pow2(t as nat) <= usize::MAX,
            vars_below(self@, t as nat),
        ensures
            r@ == truth_table_spec(self@, t as nat, mask),
    {
        proof {
            vstd::bits::lemma_u64_pow2_no_overflow(t as nat);
            vstd::bits::lemma_u64_shl_is_mul(1, t as u64);
        }
        let size: usize = (1u64 << t as u64) as usize;
        let mut tt: Vec<u64> = Vec::new();
        let mut vars: Vec<u64> = Vec::new();
        let mut j: usize = 0;
        while j < t
            invariant
                j <= t,
                vars.len() == j,
            decreases t - j,
        {
            vars.push(0);
            j += 1;
        }
        let mut i: usize = 0;
        while i < size
            invariant
                i <= size,
                size == pow2(t as nat),
                t < 64,
                vars.len() == t,
                vars_below(self@, t as nat),
                tt@ == truth_table_spec(self@, t as nat, mask).take(i as int),
            decreases size - i,
        {
            let mut idx: usize = i;
            let mut k: usize = 0;
            proof {
                lemma2_to64();
                assert(i as int / 1 == i as int);
            }
            while k < t
                invariant
                    k <= t,
                    vars.len() == t,
                    idx as int == i as int / pow2(k as nat) as int,
                    forall|q: int| 0 <= q < k ==> vars@[q] == assignment(i as nat, t as nat)[q],
                decreases t - k,
            {
                proof {
                    lemma_pow2_pos(k as nat);
                    lemma_pow2_adds(k as nat, 1);
                    lemma2_to64();
                    vstd::arithmetic::div_mod::lemma_div_denominator(i as int, pow2(k as nat) as int, 2);
                }
                vars.set(k, (idx % 2) as u64);
                idx = idx / 2;
                k += 1;
            }
            proof {
                assert(vars@ =~= assignment(i as nat, t as nat));
            }
            let value = self.eval_bits(vars.as_slice()).get(mask);
            tt.push(value);
            proof {
                assert(tt@ =~= truth_table_spec(self@, t as nat, mask).take(i + 1));
            }
            i += 1;
        }
        proof {
            assert(tt@ =~= truth_table_spec(self@, t as nat, mask));
        }
        tt
    }

    /// The truth table of the expression over its first `t` variables, on `n`
    /// bits.
    pub fn truth_table(&self, t: usize, n: u8) -> (r: Vec<u64>)
        requires
            t < 64,
            pow2(t as nat) <= usize::MAX,
            vars_below(self@, t as nat),
        ensures
            r@ == truth_table_spec(self@, t as nat, mask_of(n as nat)),
    {
        self.truth_table_masked(t, make_mask(n))
    }
}

} // verus!
