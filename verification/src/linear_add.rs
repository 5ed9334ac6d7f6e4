//! Certifying a sum of section graphs against a one-base target without
//! building their product: the sum of the children minus the target is a
//! weighted automaton over the rationals, and the target matches exactly
//! when every vector it reaches observes zero. The reachable vectors are
//! explored breadth first and kept as a basis in echelon form, so the
//! search stops after at most one new basis vector per dimension.
use vstd::prelude::*;
use crate::factorized_section::{
    BaseGraph, FactorizedSectionRefusal, LinearAddBudget, Rational, SectionScalars, children_wf, fits_i128,
    rational_spec,
};

verus! {

/// The sum of two rationals, as `Rational::add` computes it.
pub open spec fn rat_add(x: Rational, y: Rational) -> Result<Rational, FactorizedSectionRefusal> {
    let a = x.numerator * y.denominator;
    let b = y.numerator * x.denominator;
    let d = x.denominator * y.denominator;
    if fits_i128(a) && fits_i128(b) && fits_i128(a + b) && fits_i128(d) {
        rational_spec(a + b, d)
    } else {
        Err(FactorizedSectionRefusal::ArithmeticOverflow)
    }
}

/// The difference of two rationals, as `Rational::subtract` computes it.
pub open spec fn rat_sub(x: Rational, y: Rational) -> Result<Rational, FactorizedSectionRefusal> {
    let a = x.numerator * y.denominator;
    let b = y.numerator * x.denominator;
    let d = x.denominator * y.denominator;
    if fits_i128(a) && fits_i128(b) && fits_i128(a - b) && fits_i128(d) {
        rational_spec(a - b, d)
    } else {
        Err(FactorizedSectionRefusal::ArithmeticOverflow)
    }
}

/// The product of two rationals, as `Rational::multiply` computes it.
pub open spec fn rat_mul(x: Rational, y: Rational) -> Result<Rational, FactorizedSectionRefusal> {
    let n = x.numerator * y.numerator;
    let d = x.denominator * y.denominator;
    if fits_i128(n) && fits_i128(d) {
        rational_spec(n, d)
    } else {
        Err(FactorizedSectionRefusal::ArithmeticOverflow)
    }
}

/// The quotient of two rationals, as `Rational::divide` computes it.
pub open spec fn rat_div(x: Rational, y: Rational) -> Result<Rational, FactorizedSectionRefusal> {
    let n = x.numerator * y.denominator;
    let d = x.denominator * y.numerator;
    if y.numerator != 0 && fits_i128(n) && fits_i128(d) {
        rational_spec(n, d)
    } else {
        Err(FactorizedSectionRefusal::ArithmeticOverflow)
    }
}

/// The budget after spending `operations`, as `LinearAddBudget::charge`
/// computes it.
pub open spec fn charge_spec(b: LinearAddBudget, operations: int) -> Result<LinearAddBudget, FactorizedSectionRefusal> {
    if b.exact_operations + operations > usize::MAX || b.exact_operations + operations > b.max_exact_operations {
        Err(FactorizedSectionRefusal::SourceBudgetExceeded)
    } else {
        Ok(LinearAddBudget { exact_operations: (b.exact_operations + operations) as usize, ..b })
    }
}

/// The number of bases of the first `k` children.
pub open spec fn bases_before(children: Seq<BaseGraph>, k: int) -> int
    decreases k,
{
    if k <= 0 {
        0
    } else {
        bases_before(children, k - 1) + children[k - 1].bases@.len()
    }
}

/// The constants of the first `k` children added up, refused once a
/// running total overflows.
pub open spec fn r0_total(children: Seq<BaseGraph>, k: int) -> Result<i128, FactorizedSectionRefusal>
    decreases k,
{
    if k <= 0 {
        Ok(0i128)
    } else {
        match r0_total(children, k - 1) {
            Ok(s) => if fits_i128(s + children[k - 1].r0) {
                Ok((s + children[k - 1].r0) as i128)
            } else {
                Err(FactorizedSectionRefusal::ArithmeticOverflow)
            },
            Err(e) => Err(e),
        }
    }
}

/// The transitions of the first `k` children's bases, side by side, each
/// child's targets shifted past the bases before it.
pub open spec fn transitions_of(children: Seq<BaseGraph>, k: int) -> Seq<[usize; 4]>
    decreases k,
{
    if k <= 0 {
        Seq::empty()
    } else {
        let o = bases_before(children, k - 1);
        transitions_of(children, k - 1) + Seq::new(
            children[k - 1].bases@.len(),
            |j: int|
                {
                    let t = children[k - 1].bases@[j].tau;
                    [(t[0] + o) as usize, (t[1] + o) as usize, (t[2] + o) as usize, (t[3] + o) as usize]
                },
        )
    }
}

/// The contributions of the first `k` children's bases, side by side,
/// symbol 0 first.
pub open spec fn profiles_of(children: Seq<BaseGraph>, k: int) -> Seq<[i128; 4]>
    decreases k,
{
    if k <= 0 {
        Seq::empty()
    } else {
        profiles_of(children, k - 1) + Seq::new(
            children[k - 1].bases@.len(),
            |j: int|
                {
                    let e = children[k - 1].bases@[j].epsilon_nonzero;
                    [0i128, e[0], e[1], e[2]]
                },
        )
    }
}

/// How many of the first `k` children are rooted at global index `i`.
pub open spec fn roots_at(children: Seq<BaseGraph>, k: int, i: int) -> int
    decreases k,
{
    if k <= 0 {
        0
    } else {
        roots_at(children, k - 1, i) + if bases_before(children, k - 1) + children[k - 1].root == i {
            1int
        } else {
            0
        }
    }
}

/// The start vector: each child's root counts once, the target's base is
/// -1.
pub open spec fn initial_vector(children: Seq<BaseGraph>, dimension: int) -> Seq<Rational> {
    Seq::new(
        dimension as nat,
        |i: int|
            if i == dimension - 1 {
                Rational { numerator: -1i128, denominator: 1 }
            } else {
                Rational { numerator: roots_at(children, children.len() as int, i) as i128, denominator: 1 }
            },
    )
}

/// `v` with each of its first `i` entries less `c` times the entry of
/// `row` (the product, then the difference, refused on overflow).
pub open spec fn sub_scaled(v: Seq<Rational>, c: Rational, row: Seq<Rational>, i: int) -> Result<
    Seq<Rational>,
    FactorizedSectionRefusal,
>
    decreases i,
{
    if i <= 0 {
        Ok(v)
    } else {
        match sub_scaled(v, c, row, i - 1) {
            Ok(w) => match rat_mul(c, row[i - 1]) {
                Ok(p) => match rat_sub(v[i - 1], p) {
                    Ok(d) => Ok(w.update(i - 1, d)),
                    Err(e) => Err(e),
                },
                Err(e) => Err(e),
            },
            Err(e) => Err(e),
        }
    }
}

/// `v` with each of its first `i` entries divided by `p`.
pub open spec fn div_all(v: Seq<Rational>, p: Rational, i: int) -> Result<Seq<Rational>, FactorizedSectionRefusal>
    decreases i,
{
    if i <= 0 {
        Ok(v)
    } else {
        match div_all(v, p, i - 1) {
            Ok(w) => match rat_div(v[i - 1], p) {
                Ok(d) => Ok(w.update(i - 1, d)),
                Err(e) => Err(e),
            },
            Err(e) => Err(e),
        }
    }
}

/// `v` reduced by the first `k` basis rows in order: a row whose pivot
/// entry of the current vector is nonzero costs `2 * dimension` and
/// subtracts that entry times the row.
pub open spec fn reduce_rows(
    v: Seq<Rational>,
    basis: Seq<(usize, Seq<Rational>)>,
    k: int,
    budget: LinearAddBudget,
    dimension: int,
) -> Result<(Seq<Rational>, LinearAddBudget), FactorizedSectionRefusal>
    decreases k,
{
    if k <= 0 {
        Ok((v, budget))
    } else {
        match reduce_rows(v, basis, k - 1, budget, dimension) {
            Ok((w, b)) => {
                let c = w[basis[k - 1].0 as int];
                if c.numerator == 0 {
                    Ok((w, b))
                } else {
                    match charge_spec(b, 2 * dimension) {
                        Ok(b2) => match sub_scaled(w, c, basis[k - 1].1, w.len() as int) {
                            Ok(w2) => Ok((w2, b2)),
                            Err(e) => Err(e),
                        },
                        Err(e) => Err(e),
                    }
                }
            },
            Err(e) => Err(e),
        }
    }
}

/// The first index from `i` on where `v` is nonzero.
pub open spec fn first_nonzero_from(v: Seq<Rational>, i: int) -> Option<int>
    decreases v.len() - i,
{
    if i >= v.len() || i < 0 {
        None
    } else if v[i].numerator != 0 {
        Some(i)
    } else {
        first_nonzero_from(v, i + 1)
    }
}

/// Where a row with pivot `p` goes among the rows from `i` on: before the
/// first whose pivot is not below `p`.
pub open spec fn insertion_from(basis: Seq<(usize, Seq<Rational>)>, p: int, i: int) -> int
    decreases basis.len() - i,
{
    if i >= basis.len() || i < 0 {
        basis.len() as int
    } else if basis[i].0 < p {
        insertion_from(basis, p, i + 1)
    } else {
        i
    }
}

/// The observation of `v` on `symbol` over its first `j` entries.
pub open spec fn observe(v: Seq<Rational>, profiles: Seq<[i128; 4]>, symbol: int, j: int) -> Result<
    Rational,
    FactorizedSectionRefusal,
>
    decreases j,
{
    if j <= 0 {
        Ok(Rational { numerator: 0, denominator: 1 })
    } else {
        match observe(v, profiles, symbol, j - 1) {
            Ok(o) => match rat_mul(v[j - 1], Rational { numerator: profiles[j - 1][symbol], denominator: 1 }) {
                Ok(m) => rat_add(o, m),
                Err(e) => Err(e),
            },
            Err(e) => Err(e),
        }
    }
}

/// The vector of `dimension` zeros.
pub open spec fn zero_vector(dimension: int) -> Seq<Rational> {
    Seq::new(dimension as nat, |i: int| Rational { numerator: 0, denominator: 1 })
}

/// Where the first `j` entries of `v` go on `symbol`: each is added to its
/// destination.
pub open spec fn destination(v: Seq<Rational>, transitions: Seq<[usize; 4]>, symbol: int, j: int, dimension: int) -> Result<
    Seq<Rational>,
    FactorizedSectionRefusal,
>
    decreases j,
{
    if j <= 0 {
        Ok(zero_vector(dimension))
    } else {
        match destination(v, transitions, symbol, j - 1, dimension) {
            Ok(d) => {
                let t = transitions[j - 1][symbol] as int;
                match rat_add(d[t], v[j - 1]) {
                    Ok(x) => Ok(d.update(t, x)),
                    Err(e) => Err(e),
                }
            },
            Err(e) => Err(e),
        }
    }
}

/// The first `s` symbols of a new basis row `v`: each costs
/// `3 * dimension`, must observe zero, and queues where `v` goes.
pub open spec fn symbols_spec(
    v: Seq<Rational>,
    pending: Seq<Seq<Rational>>,
    budget: LinearAddBudget,
    profiles: Seq<[i128; 4]>,
    transitions: Seq<[usize; 4]>,
    dimension: int,
    s: int,
) -> Result<(Seq<Seq<Rational>>, LinearAddBudget), FactorizedSectionRefusal>
    decreases s,
{
    if s <= 0 {
        Ok((pending, budget))
    } else {
        match symbols_spec(v, pending, budget, profiles, transitions, dimension, s - 1) {
            Ok((pend, b)) => match charge_spec(b, 3 * dimension) {
                Ok(b2) => match observe(v, profiles, s - 1, dimension) {
                    Ok(o) => if o.numerator != 0 {
                        Err(FactorizedSectionRefusal::CandidateMismatch)
                    } else {
                        match destination(v, transitions, s - 1, dimension, dimension) {
                            Ok(d) => Ok((pend.push(d), b2)),
                            Err(e) => Err(e),
                        }
                    },
                    Err(e) => Err(e),
                },
                Err(e) => Err(e),
            },
            Err(e) => Err(e),
        }
    }
}

/// The search state: the basis rows by pivot, the queued vectors, the next
/// one to take, and the budget spent.
pub type SearchState = (Seq<(usize, Seq<Rational>)>, Seq<Seq<Rational>>, int, LinearAddBudget);

/// One vector taken from the queue: reduced by the basis; a nonzero
/// remainder costs `dimension`, is scaled to 1 at its first nonzero entry,
/// joins the basis (refused past the basis limit), and then observes zero
/// and queues its successors on each symbol.
pub open spec fn search_step(
    st: SearchState,
    profiles: Seq<[i128; 4]>,
    transitions: Seq<[usize; 4]>,
    dimension: int,
) -> Result<SearchState, FactorizedSectionRefusal> {
    let (basis, pending, head, budget) = st;
    match reduce_rows(pending[head], basis, basis.len() as int, budget, dimension) {
        Ok((w, b1)) => match first_nonzero_from(w, 0) {
            None => Ok((basis, pending, head + 1, b1)),
            Some(p) => match charge_spec(b1, dimension) {
                Ok(b2) => match div_all(w, w[p], w.len() as int) {
                    Ok(u) => {
                        let basis2 = basis.insert(insertion_from(basis, p, 0), (p as usize, u));
                        if basis2.len() > b2.max_basis_vectors {
                            Err(FactorizedSectionRefusal::SourceBudgetExceeded)
                        } else {
                            match symbols_spec(u, pending, b2, profiles, transitions, dimension, 4) {
                                Ok((pend2, b3)) => Ok((basis2, pend2, head + 1, b3)),
                                Err(e) => Err(e),
                            }
                        }
                    },
                    Err(e) => Err(e),
                },
                Err(e) => Err(e),
            },
        },
        Err(e) => Err(e),
    }
}

/// The search run until the queue is empty or a step is refused; `fuel`
/// bounds the steps and is more than the search can take, since each step
/// either takes a queued vector or adds a basis row, and at most four
/// vectors are queued per row.
pub open spec fn search_run(
    st: SearchState,
    profiles: Seq<[i128; 4]>,
    transitions: Seq<[usize; 4]>,
    dimension: int,
    fuel: nat,
) -> Result<(), FactorizedSectionRefusal>
    decreases fuel,
{
    if st.2 >= st.1.len() {
        Ok(())
    } else if fuel == 0 {
        Err(FactorizedSectionRefusal::SourceBudgetExceeded)
    } else {
        match search_step(st, profiles, transitions, dimension) {
            Ok(st2) => search_run(st2, profiles, transitions, dimension, (fuel - 1) as nat),
            Err(e) => Err(e),
        }
    }
}

/// The number of search steps allowed: more than `1 + 4 * 512`.
pub open spec fn search_fuel() -> nat {
    4096
}

/// The fresh budget.
pub open spec fn fresh_budget() -> LinearAddBudget {
    LinearAddBudget {
        max_dimension: 512,
        max_basis_vectors: 512,
        max_exact_operations: 50_000_000,
        exact_operations: 0,
    }
}

/// What `linear_add_match` answers: refused without children, past 512
/// dimensions, when the constants overflow or differ from the target's,
/// and otherwise as the search over the combined automaton says.
pub open spec fn linear_add_spec(children: Seq<BaseGraph>, target: SectionScalars) -> Result<
    (),
    FactorizedSectionRefusal,
> {
    let n = children.len() as int;
    let dimension = 1 + bases_before(children, n);
    if n == 0 {
        Err(FactorizedSectionRefusal::UnsupportedNode)
    } else if dimension > 512 {
        Err(FactorizedSectionRefusal::SourceBudgetExceeded)
    } else {
        match r0_total(children, n) {
            Err(e) => Err(e),
            Ok(s) => if s != target.r0 {
                Err(FactorizedSectionRefusal::CandidateMismatch)
            } else {
                let t = (dimension - 1) as usize;
                let transitions = transitions_of(children, n).push([t, t, t, t]);
                let profiles = profiles_of(children, n).push(target.epsilon);
                search_run(
                    (Seq::empty(), seq![initial_vector(children, dimension)], 0, fresh_budget()),
                    profiles,
                    transitions,
                    dimension,
                    search_fuel(),
                )
            },
        }
    }
}

/// Once the entry updates are refused, longer prefixes give the same.
proof fn lemma_sub_scaled_stops(v: Seq<Rational>, c: Rational, row: Seq<Rational>, k: int, m: int)
    requires
        0 <= k <= m,
        sub_scaled(v, c, row, k) is Err,
    ensures
        sub_scaled(v, c, row, m) == sub_scaled(v, c, row, k),
    decreases m - k,
{
    if k < m {
        lemma_sub_scaled_stops(v, c, row, k, m - 1);
    }
}

/// Once the divisions are refused, longer prefixes give the same.
proof fn lemma_div_all_stops(v: Seq<Rational>, p: Rational, k: int, m: int)
    requires
        0 <= k <= m,
        div_all(v, p, k) is Err,
    ensures
        div_all(v, p, m) == div_all(v, p, k),
    decreases m - k,
{
    if k < m {
        lemma_div_all_stops(v, p, k, m - 1);
    }
}

/// Once the reduction is refused, more rows give the same.
proof fn lemma_reduce_stops(
    v: Seq<Rational>,
    basis: Seq<(usize, Seq<Rational>)>,
    k: int,
    m: int,
    budget: LinearAddBudget,
    dimension: int,
)
    requires
        0 <= k <= m,
        reduce_rows(v, basis, k, budget, dimension) is Err,
    ensures
        reduce_rows(v, basis, m, budget, dimension) == reduce_rows(v, basis, k, budget, dimension),
    decreases m - k,
{
    if k < m {
        lemma_reduce_stops(v, basis, k, m - 1, budget, dimension);
    }
}

/// Once the observation is refused, more entries give the same.
proof fn lemma_observe_stops(v: Seq<Rational>, profiles: Seq<[i128; 4]>, symbol: int, k: int, m: int)
    requires
        0 <= k <= m,
        observe(v, profiles, symbol, k) is Err,
    ensures
        observe(v, profiles, symbol, m) == observe(v, profiles, symbol, k),
    decreases m - k,
{
    if k < m {
        lemma_observe_stops(v, profiles, symbol, k, m - 1);
    }
}

/// Once the destination is refused, more entries give the same.
proof fn lemma_destination_stops(
    v: Seq<Rational>,
    transitions: Seq<[usize; 4]>,
    symbol: int,
    k: int,
    m: int,
    dimension: int,
)
    requires
        0 <= k <= m,
        destination(v, transitions, symbol, k, dimension) is Err,
    ensures
        destination(v, transitions, symbol, m, dimension) == destination(v, transitions, symbol, k, dimension),
    decreases m - k,
{
    if k < m {
        lemma_destination_stops(v, transitions, symbol, k, m - 1, dimension);
    }
}

/// Once a symbol is refused, more symbols give the same.
proof fn lemma_symbols_stops(
    v: Seq<Rational>,
    pending: Seq<Seq<Rational>>,
    budget: LinearAddBudget,
    profiles: Seq<[i128; 4]>,
    transitions: Seq<[usize; 4]>,
    dimension: int,
    k: int,
    m: int,
)
    requires
        0 <= k <= m,
        symbols_spec(v, pending, budget, profiles, transitions, dimension, k) is Err,
    ensures
        symbols_spec(v, pending, budget, profiles, transitions, dimension, m) == symbols_spec(
            v,
            pending,
            budget,
            profiles,
            transitions,
            dimension,
            k,
        ),
    decreases m - k,
{
    if k < m {
        lemma_symbols_stops(v, pending, budget, profiles, transitions, dimension, k, m - 1);
    }
}

/// A copy of a vector of rationals.
fn copy_vector(v: &Vec<Rational>) -> (r: Vec<Rational>)
    ensures
        r@ == v@,
{
    let mut r: Vec<Rational> = Vec::new();
    let mut i: usize = 0;
    while i < v.len()
        invariant
            i <= v.len(),
            r@ == v@.take(i as int),
        decreases v.len() - i,
    {
        r.push(v[i]);
        proof {
            assert(r@ =~= v@.take(i + 1));
        }
        i += 1;
    }
    proof {
        assert(v@.take(i as int) =~= v@);
    }
    r
}

/// Subtracts `c` times `row` from `v`, entry by entry.
fn sub_scaled_exec(v: &mut Vec<Rational>, c: Rational, row: &Vec<Rational>) -> (r: Result<(), FactorizedSectionRefusal>)
    requires
        old(v).len() == row.len(),
    ensures
        final(v).len() == old(v).len(),
        match sub_scaled(old(v)@, c, row@, old(v).len() as int) {
            Ok(w) => r is Ok && final(v)@ == w,
            Err(e) => r == Err::<(), FactorizedSectionRefusal>(e),
        },
{
    let ghost orig = v@;
    let mut i: usize = 0;
    while i < v.len()
        invariant
            i <= v.len(),
            v.len() == orig.len(),
            orig.len() == row.len(),
            orig == old(v)@,
            sub_scaled(orig, c, row@, i as int) == Ok::<Seq<Rational>, FactorizedSectionRefusal>(v@),
            forall|j: int| i <= j < v.len() ==> v@[j] == orig[j],
        decreases v.len() - i,
    {
        let p = match c.multiply(&row[i]) {
            Ok(p) => p,
            Err(e) => {
                proof {
                    lemma_sub_scaled_stops(orig, c, row@, i + 1, orig.len() as int);
                }
                return Err(e);
            },
        };
        let d = match v[i].subtract(&p) {
            Ok(d) => d,
            Err(e) => {
                proof {
                    lemma_sub_scaled_stops(orig, c, row@, i + 1, orig.len() as int);
                }
                return Err(e);
            },
        };
        v.set(i, d);
        i += 1;
    }
    Ok(())
}

/// Divides every entry of `v` by `p`.
fn div_all_exec(v: &mut Vec<Rational>, p: Rational) -> (r: Result<(), FactorizedSectionRefusal>)
    ensures
        final(v).len() == old(v).len(),
        match div_all(old(v)@, p, old(v).len() as int) {
            Ok(w) => r is Ok && final(v)@ == w,
            Err(e) => r == Err::<(), FactorizedSectionRefusal>(e),
        },
{
    let ghost orig = v@;
    let mut i: usize = 0;
    while i < v.len()
        invariant
            i <= v.len(),
            v.len() == orig.len(),
            orig == old(v)@,
            div_all(orig, p, i as int) == Ok::<Seq<Rational>, FactorizedSectionRefusal>(v@),
            forall|j: int| i <= j < v.len() ==> v@[j] == orig[j],
        decreases v.len() - i,
    {
        let d = match v[i].divide(&p) {
            Ok(d) => d,
            Err(e) => {
                proof {
                    lemma_div_all_stops(orig, p, i + 1, orig.len() as int);
                }
                return Err(e);
            },
        };
        v.set(i, d);
        i += 1;
    }
    Ok(())
}

/// The rows of a basis with their vectors viewed.
pub open spec fn basis_view(basis: Seq<(usize, Vec<Rational>)>) -> Seq<(usize, Seq<Rational>)> {
    Seq::new(basis.len(), |i: int| (basis[i].0, basis[i].1@))
}

/// The queued vectors viewed.
pub open spec fn pending_view(pending: Seq<Vec<Rational>>) -> Seq<Seq<Rational>> {
    Seq::new(pending.len(), |i: int| pending[i]@)
}

/// Every row has `dimension` entries and a pivot below it.
pub open spec fn rows_fit(basis: Seq<(usize, Seq<Rational>)>, dimension: int) -> bool {
    forall|i: int| 0 <= i < basis.len() ==> (#[trigger] basis[i]).1.len() == dimension && basis[i].0 < dimension
}

/// Reduces `v` by the basis rows, in order.
fn reduce_exec(
    v: &mut Vec<Rational>,
    basis: &Vec<(usize, Vec<Rational>)>,
    budget: &mut LinearAddBudget,
    dimension: usize,
) -> (r: Result<(), FactorizedSectionRefusal>)
    requires
        old(v).len() == dimension,
        dimension <= 512,
        rows_fit(basis_view(basis@), dimension as int),
    ensures
        final(v).len() == dimension,
        match reduce_rows(old(v)@, basis_view(basis@), basis.len() as int, *old(budget), dimension as int) {
            Ok((w, b)) => r is Ok && final(v)@ == w && *final(budget) == b,
            Err(e) => r == Err::<(), FactorizedSectionRefusal>(e),
        },
        r is Ok ==> final(budget).max_basis_vectors == old(budget).max_basis_vectors,
{
    let ghost orig = v@;
    let ghost b0 = *budget;
    let ghost bv = basis_view(basis@);
    let mut k: usize = 0;
    while k < basis.len()
        invariant
            k <= basis.len(),
            v.len() == dimension,
            dimension <= 512,
            bv == basis_view(basis@),
            rows_fit(bv, dimension as int),
            orig == old(v)@,
            b0 == *old(budget),
            reduce_rows(orig, bv, k as int, b0, dimension as int) == Ok::<
                (Seq<Rational>, LinearAddBudget),
                FactorizedSectionRefusal,
            >((v@, *budget)),
            budget.max_basis_vectors == b0.max_basis_vectors,
        decreases basis.len() - k,
    {
        let pivot = basis[k].0;
        proof {
            assert(bv[k as int].0 == pivot && bv[k as int].1 == basis@[k as int].1@);
            assert(bv[k as int].1.len() == dimension);
        }
        let c = v[pivot];
        if !c.is_zero() {
            match budget.charge(dimension * 2) {
                Ok(()) => {},
                Err(e) => {
                    proof {
                        lemma_reduce_stops(orig, bv, k + 1, basis.len() as int, b0, dimension as int);
                    }
                    return Err(e);
                },
            }
            match sub_scaled_exec(v, c, &basis[k].1) {
                Ok(()) => {},
                Err(e) => {
                    proof {
                        lemma_reduce_stops(orig, bv, k + 1, basis.len() as int, b0, dimension as int);
                    }
                    return Err(e);
                },
            }
        }
        k += 1;
    }
    Ok(())
}

/// The first index where `v` is nonzero.
fn first_nonzero_exec(v: &Vec<Rational>) -> (r: Option<usize>)
    ensures
        match first_nonzero_from(v@, 0) {
            Some(p) => r == Some(p as usize),
            None => r is None,
        },
        r matches Some(p) ==> p < v.len() && first_nonzero_from(v@, 0) == Some(p as int),
{
    let mut i: usize = 0;
    while i < v.len()
        invariant
            i <= v.len(),
            first_nonzero_from(v@, 0) == first_nonzero_from(v@, i as int),
        decreases v.len() - i,
    {
        if !v[i].is_zero() {
            return Some(i);
        }
        i += 1;
    }
    None
}

/// Where a row with pivot `p` goes in the basis.
fn insertion_exec(basis: &Vec<(usize, Vec<Rational>)>, p: usize) -> (r: usize)
    ensures
        r == insertion_from(basis_view(basis@), p as int, 0),
        r <= basis.len(),
{
    let ghost bv = basis_view(basis@);
    let mut i: usize = 0;
    while i < basis.len()
        invariant
            i <= basis.len(),
            bv == basis_view(basis@),
            insertion_from(bv, p as int, 0) == insertion_from(bv, p as int, i as int),
        decreases basis.len() - i,
    {
        proof {
            assert(bv[i as int].0 == basis@[i as int].0);
        }
        if !(basis[i].0 < p) {
            return i;
        }
        i += 1;
    }
    i
}

/// The observation of `v` on `symbol`.
fn observe_exec(v: &Vec<Rational>, profiles: &Vec<[i128; 4]>, symbol: usize) -> (r: Result<
    Rational,
    FactorizedSectionRefusal,
>)
    requires
        v.len() == profiles.len(),
        symbol < 4,
    ensures
        r == observe(v@, profiles@, symbol as int, v.len() as int),
{
    let mut o = Rational::integer(0);
    let mut j: usize = 0;
    while j < v.len()
        invariant
            j <= v.len(),
            v.len() == profiles.len(),
            symbol < 4,
            observe(v@, profiles@, symbol as int, j as int) == Ok::<Rational, FactorizedSectionRefusal>(o),
        decreases v.len() - j,
    {
        let weight = Rational::integer(profiles[j][symbol]);
        let m = match v[j].multiply(&weight) {
            Ok(m) => m,
            Err(e) => {
                proof {
                    lemma_observe_stops(v@, profiles@, symbol as int, j + 1, v.len() as int);
                }
                return Err(e);
            },
        };
        o = match o.add(&m) {
            Ok(x) => x,
            Err(e) => {
                proof {
                    lemma_observe_stops(v@, profiles@, symbol as int, j + 1, v.len() as int);
                }
                return Err(e);
            },
        };
        j += 1;
    }
    Ok(o)
}

/// The vector of `dimension` zeros.
fn zeros(dimension: usize) -> (r: Vec<Rational>)
    ensures
        r@ == zero_vector(dimension as int),
{
    let mut r: Vec<Rational> = Vec::new();
    let mut i: usize = 0;
    while i < dimension
        invariant
            i <= dimension,
            r@ == zero_vector(i as int),
        decreases dimension - i,
    {
        r.push(Rational::integer(0));
        proof {
            assert(r@ =~= zero_vector(i + 1));
        }
        i += 1;
    }
    r
}

/// Every transition stays below `dimension`.
pub open spec fn transitions_fit(transitions: Seq<[usize; 4]>, dimension: int) -> bool {
    forall|j: int, s: int| 0 <= j < transitions.len() && 0 <= s < 4 ==> #[trigger] transitions[j][s] < dimension
}

/// Where `v` goes on `symbol`.
fn destination_exec(v: &Vec<Rational>, transitions: &Vec<[usize; 4]>, symbol: usize, dimension: usize) -> (r: Result<
    Vec<Rational>,
    FactorizedSectionRefusal,
>)
    requires
        v.len() == transitions.len(),
        symbol < 4,
        transitions_fit(transitions@, dimension as int),
    ensures
        match destination(v@, transitions@, symbol as int, v.len() as int, dimension as int) {
            Ok(d) => r matches Ok(x) && x@ == d && x.len() == dimension,
            Err(e) => r == Err::<Vec<Rational>, FactorizedSectionRefusal>(e),
        },
{
    let mut d = zeros(dimension);
    let mut j: usize = 0;
    while j < v.len()
        invariant
            j <= v.len(),
            v.len() == transitions.len(),
            symbol < 4,
            transitions_fit(transitions@, dimension as int),
            d.len() == dimension,
            destination(v@, transitions@, symbol as int, j as int, dimension as int) == Ok::<
                Seq<Rational>,
                FactorizedSectionRefusal,
            >(d@),
        decreases v.len() - j,
    {
        let t = transitions[j][symbol];
        proof {
            assert(transitions@[j as int][symbol as int] < dimension);
        }
        let x = match d[t].add(&v[j]) {
            Ok(x) => x,
            Err(e) => {
                proof {
                    lemma_destination_stops(v@, transitions@, symbol as int, j + 1, v.len() as int, dimension as int);
                }
                return Err(e);
            },
        };
        d.set(t, x);
        j += 1;
    }
    Ok(d)
}

/// The bases before a child are no more than all of them.
proof fn lemma_bases_before_grows(children: Seq<BaseGraph>, k: int, m: int)
    requires
        0 <= k <= m,
    ensures
        0 <= bases_before(children, k) <= bases_before(children, m),
    decreases m,
{
    if m > 0 {
        if k < m {
            lemma_bases_before_grows(children, k, m - 1);
        } else {
            lemma_bases_before_grows(children, k - 1, m - 1);
        }
    }
}

/// A position counts at most one root per child.
proof fn lemma_roots_at_bound(children: Seq<BaseGraph>, k: int, i: int)
    requires
        k >= 0,
    ensures
        0 <= roots_at(children, k, i) <= k,
    decreases k,
{
    if k > 0 {
        lemma_roots_at_bound(children, k - 1, i);
    }
}

/// No root sits at or past the end of the children's bases.
proof fn lemma_roots_below(children: Seq<BaseGraph>, k: int, i: int)
    requires
        0 <= k <= children.len(),
        children_wf(children),
        i >= bases_before(children, k),
    ensures
        roots_at(children, k, i) == 0,
    decreases k,
{
    if k > 0 {
        assert(crate::factorized_section::graph_wf(children[k - 1]));
        lemma_roots_below(children, k - 1, i);
    }
}

/// The transitions and contributions of the children side by side, the
/// target's base last.
fn rows_of(children: &[BaseGraph], target: &SectionScalars, dimension: usize) -> (r: (Vec<[usize; 4]>, Vec<[i128; 4]>))
    requires
        children_wf(children@),
        dimension == 1 + bases_before(children@, children@.len() as int),
        dimension <= 512,
    ensures
        r.0@ == transitions_of(children@, children@.len() as int).push(
            [(dimension - 1) as usize, (dimension - 1) as usize, (dimension - 1) as usize, (dimension - 1) as usize],
        ),
        r.1@ == profiles_of(children@, children@.len() as int).push(target.epsilon),
        r.0.len() == dimension,
        r.1.len() == dimension,
        transitions_fit(r.0@, dimension as int),
{
    let n = children.len();
    let mut transitions: Vec<[usize; 4]> = Vec::new();
    let mut profiles: Vec<[i128; 4]> = Vec::new();
    let mut offset: usize = 0;
    let mut k: usize = 0;
    while k < n
        invariant
            k <= n,
            n == children@.len(),
            children_wf(children@),
            dimension == 1 + bases_before(children@, n as int),
            dimension <= 512,
            offset == bases_before(children@, k as int),
            transitions@ == transitions_of(children@, k as int),
            profiles@ == profiles_of(children@, k as int),
            transitions.len() == offset,
            profiles.len() == offset,
            transitions_fit(transitions@, dimension as int - 1),
        decreases n - k,
    {
        let child = &children[k];
        proof {
            assert(crate::factorized_section::graph_wf(children@[k as int]));
            lemma_bases_before_grows(children@, k + 1, n as int);
        }
        let ghost o = offset as int;
        let mut j: usize = 0;
        while j < child.bases.len()
            invariant
                j <= child.bases.len(),
                child == children@[k as int],
                crate::factorized_section::graph_wf(*child),
                o == offset as int,
                o == bases_before(children@, k as int),
                o + child.bases.len() <= dimension - 1,
                transitions@ == transitions_of(children@, k as int) + Seq::new(
                    j as nat,
                    |i: int|
                        {
                            let t = child.bases@[i].tau;
                            [(t[0] + o) as usize, (t[1] + o) as usize, (t[2] + o) as usize, (t[3] + o) as usize]
                        },
                ),
                profiles@ == profiles_of(children@, k as int) + Seq::new(
                    j as nat,
                    |i: int|
                        {
                            let e = child.bases@[i].epsilon_nonzero;
                            [0i128, e[0], e[1], e[2]]
                        },
                ),
                transitions.len() == o + j,
                profiles.len() == o + j,
                transitions_fit(transitions@, dimension as int - 1),
            decreases child.bases.len() - j,
        {
            let t = child.bases[j].tau;
            proof {
                assert(forall|q: int| 0 <= q < 4 ==> #[trigger] t[q] < child.bases.len());
            }
            let shifted = [t[0] + offset, t[1] + offset, t[2] + offset, t[3] + offset];
            let e = child.bases[j].epsilon_nonzero;
            transitions.push(shifted);
            profiles.push([0, e[0], e[1], e[2]]);
            proof {
                let ghost tk = transitions_of(children@, k as int);
                assert(transitions@ =~= tk + Seq::new(
                    (j + 1) as nat,
                    |i: int|
                        {
                            let t = child.bases@[i].tau;
                            [(t[0] + o) as usize, (t[1] + o) as usize, (t[2] + o) as usize, (t[3] + o) as usize]
                        },
                ));
                let ghost pk = profiles_of(children@, k as int);
                assert(profiles@ =~= pk + Seq::new(
                    (j + 1) as nat,
                    |i: int|
                        {
                            let e = child.bases@[i].epsilon_nonzero;
                            [0i128, e[0], e[1], e[2]]
                        },
                ));
                assert forall|jj: int, q: int| 0 <= jj < transitions@.len() && 0 <= q < 4 implies #[trigger] transitions@[jj][q]
                    < dimension - 1 by {
                    if jj == transitions@.len() - 1 {
                        assert(transitions@[jj] == shifted);
                    }
                }
            }
            j += 1;
        }
        offset = offset + child.bases.len();
        k += 1;
    }
    let last = dimension - 1;
    transitions.push([last, last, last, last]);
    profiles.push(target.epsilon);
    proof {
        assert forall|jj: int, q: int| 0 <= jj < transitions@.len() && 0 <= q < 4 implies #[trigger] transitions@[jj][q]
            < dimension by {
            if jj < transitions@.len() - 1 {
                assert(transitions@[jj][q] < dimension - 1);
            }
        }
    }
    (transitions, profiles)
}

/// The start vector of the search.
fn initial_exec(children: &[BaseGraph], dimension: usize) -> (r: Vec<Rational>)
    requires
        children_wf(children@),
        dimension == 1 + bases_before(children@, children@.len() as int),
        dimension <= 512,
    ensures
        r@ == initial_vector(children@, dimension as int),
{
    let n = children.len();
    let mut v = zeros(dimension);
    let mut offset: usize = 0;
    let mut k: usize = 0;
    while k < n
        invariant
            k <= n,
            n == children@.len(),
            children_wf(children@),
            dimension == 1 + bases_before(children@, n as int),
            dimension <= 512,
            offset == bases_before(children@, k as int),
            v@ == Seq::new(
                dimension as nat,
                |i: int| Rational { numerator: roots_at(children@, k as int, i) as i128, denominator: 1 },
            ),
        decreases n - k,
    {
        let child = &children[k];
        proof {
            assert(crate::factorized_section::graph_wf(children@[k as int]));
            lemma_bases_before_grows(children@, k + 1, n as int);
        }
        let idx = offset + child.root;
        proof {
            lemma_roots_at_bound(children@, k as int, idx as int);
            lemma_roots_at_bound(children@, k + 1, idx as int);
        }
        let old = v[idx];
        v.set(idx, Rational { numerator: old.numerator + 1, denominator: 1 });
        proof {
            assert forall|i: int| 0 <= i < dimension implies (#[trigger] v@[i]).numerator == roots_at(children@, k + 1, i)
                as i128 by {
                lemma_roots_at_bound(children@, k as int, i);
                lemma_roots_at_bound(children@, k + 1, i);
            }
            assert(v@ =~= Seq::new(
                dimension as nat,
                |i: int| Rational { numerator: roots_at(children@, k + 1, i) as i128, denominator: 1 },
            ));
        }
        offset = offset + child.root;
        offset = offset - child.root + child.bases.len();
        k += 1;
    }
    proof {
        lemma_roots_below(children@, n as int, dimension - 1);
    }
    v.set(dimension - 1, Rational { numerator: -1, denominator: 1 });
    proof {
        assert(v@ =~= initial_vector(children@, dimension as int));
    }
    v
}

/// The queue views of a vector of vectors, one more pushed.
proof fn lemma_pending_push(pending: Seq<Vec<Rational>>, x: Vec<Rational>)
    ensures
        pending_view(pending.push(x)) == pending_view(pending).push(x@),
{
    assert(pending_view(pending.push(x)) =~= pending_view(pending).push(x@));
}

/// Whether the sum of the section graphs `children` matches `target`
/// exactly: the constants must add up to the target's, and every vector the
/// combined automaton (children minus target) reaches must observe zero on
/// every symbol; refused without children, past 512 dimensions or 512 basis
/// rows, when the exact arithmetic overflows, or once the operation budget
/// is spent.
pub fn linear_add_match(children: &[BaseGraph], target: &SectionScalars) -> (r: Result<(), FactorizedSectionRefusal>)
    requires
        children_wf(children@),
    ensures
        r == linear_add_spec(children@, *target),
{
    if children.len() == 0 {
        return Err(FactorizedSectionRefusal::UnsupportedNode);
    }
    let n = children.len();
    let mut budget = LinearAddBudget::new();
    let mut dimension: usize = 1;
    let mut k: usize = 0;
    while k < n
        invariant
            k <= n,
            n == children@.len(),
            dimension == 1 + bases_before(children@, k as int),
            dimension <= 513,
        decreases n - k,
    {
        proof {
            lemma_bases_before_grows(children@, k + 1, n as int);
        }
        let len = children[k].bases.len();
        if len > 512 || dimension + len > 513 {
            proof {
                lemma_bases_before_grows(children@, k + 1, n as int);
            }
            return Err(FactorizedSectionRefusal::SourceBudgetExceeded);
        }
        dimension = dimension + len;
        k += 1;
    }
    if dimension > budget.max_dimension {
        return Err(FactorizedSectionRefusal::SourceBudgetExceeded);
    }
    let mut source_r0: i128 = 0;
    let mut k: usize = 0;
    while k < n
        invariant
            k <= n,
            n == children@.len(),
            r0_total(children@, k as int) == Ok::<i128, FactorizedSectionRefusal>(source_r0),
            dimension == 1 + bases_before(children@, n as int),
            dimension <= 512,
            n > 0,
        decreases n - k,
    {
        source_r0 = match source_r0.checked_add(children[k].r0) {
            Some(v) => v,
            None => {
                proof {
                    lemma_r0_stops(children@, k + 1, n as int);
                }
                return Err(FactorizedSectionRefusal::ArithmeticOverflow);
            },
        };
        k += 1;
    }
    if source_r0 != target.r0 {
        return Err(FactorizedSectionRefusal::CandidateMismatch);
    }
    let (transitions, profiles) = rows_of(children, target, dimension);
    let initial = initial_exec(children, dimension);
    let ghost tr = transitions@;
    let ghost pr = profiles@;
    let ghost dim = dimension as int;
    let ghost st0: SearchState = (Seq::empty(), seq![initial@], 0, fresh_budget());
    let mut basis: Vec<(usize, Vec<Rational>)> = Vec::new();
    let mut pending: Vec<Vec<Rational>> = Vec::new();
    pending.push(initial);
    proof {
        assert(basis_view(basis@) =~= Seq::<(usize, Seq<Rational>)>::empty());
        assert(pending_view(pending@) =~= seq![initial@]);
    }
    let mut head: usize = 0;
    proof {
        assert(linear_add_spec(children@, *target) == search_run(st0, pr, tr, dim, search_fuel()));
    }
    while head < pending.len()
        invariant
            linear_add_spec(children@, *target) == search_run(st0, pr, tr, dim, search_fuel()),
            tr == transitions@,
            pr == profiles@,
            dim == dimension as int,
            dimension <= 512,
            transitions.len() == dimension,
            profiles.len() == dimension,
            transitions_fit(tr, dim),
            head <= pending.len(),
            pending.len() == 1 + 4 * basis.len(),
            basis.len() <= 512,
            rows_fit(basis_view(basis@), dim),
            forall|i: int| 0 <= i < pending.len() ==> (#[trigger] pending@[i]).len() == dimension,
            budget.max_basis_vectors == 512,
            search_run(st0, pr, tr, dim, search_fuel()) == search_run(
                (basis_view(basis@), pending_view(pending@), head as int, budget),
                pr,
                tr,
                dim,
                (search_fuel() - head) as nat,
            ),
        decreases 2049 - head,
    {
        let ghost st: SearchState = (basis_view(basis@), pending_view(pending@), head as int, budget);
        let ghost fuel = (search_fuel() - head) as nat;
        proof {
            assert(search_run(st, pr, tr, dim, fuel) == match search_step(st, pr, tr, dim) {
                Ok(st2) => search_run(st2, pr, tr, dim, (fuel - 1) as nat),
                Err(e) => Err(e),
            });
            assert(pending_view(pending@)[head as int] == pending@[head as int]@);
        }
        let mut vector = copy_vector(&pending[head]);
        head += 1;
        proof {
            assert(vector@ == st.1[st.2]);
            assert(basis_view(basis@).len() == basis.len());
        }
        match reduce_exec(&mut vector, &basis, &mut budget, dimension) {
            Ok(()) => {},
            Err(e) => {
                proof {
                    assert(reduce_rows(st.1[st.2], st.0, st.0.len() as int, st.3, dim) == Err::<
                        (Seq<Rational>, LinearAddBudget),
                        FactorizedSectionRefusal,
                    >(e));
                    assert(search_step(st, pr, tr, dim) == Err::<SearchState, FactorizedSectionRefusal>(e));
                }
                return Err(e);
            },
        }
        let ghost w = vector@;
        let ghost b1 = budget;
        proof {
            assert(reduce_rows(st.1[st.2], st.0, st.0.len() as int, st.3, dim) == Ok::<
                (Seq<Rational>, LinearAddBudget),
                FactorizedSectionRefusal,
            >((w, b1)));
        }
        let pivot = match first_nonzero_exec(&vector) {
            Some(p) => p,
            None => {
                proof {
                    assert(search_step(st, pr, tr, dim) == Ok::<SearchState, FactorizedSectionRefusal>(
                        (st.0, st.1, st.2 + 1, b1),
                    ));
                    assert(pending_view(pending@) == st.1);
                }
                continue;
            },
        };
        proof {
            assert(first_nonzero_from(w, 0) == Some(pivot as int));
        }
        match budget.charge(dimension) {
            Ok(()) => {},
            Err(e) => {
                proof {
                    assert(charge_spec(b1, dim) == Err::<LinearAddBudget, FactorizedSectionRefusal>(e));
                    assert(search_step(st, pr, tr, dim) == Err::<SearchState, FactorizedSectionRefusal>(e));
                }
                return Err(e);
            },
        }
        let ghost b2 = budget;
        proof {
            assert(charge_spec(b1, dim) == Ok::<LinearAddBudget, FactorizedSectionRefusal>(b2));
        }
        let pivot_value = vector[pivot];
        match div_all_exec(&mut vector, pivot_value) {
            Ok(()) => {},
            Err(e) => {
                proof {
                    assert(search_step(st, pr, tr, dim) == Err::<SearchState, FactorizedSectionRefusal>(e));
                }
                return Err(e);
            },
        }
        let ghost u = vector@;
        let insertion = insertion_exec(&basis, pivot);
        let row = copy_vector(&vector);
        let ghost basis_before = basis@;
        basis.insert(insertion, (pivot, row));
        proof {
            assert(basis_view(basis@) =~= basis_view(basis_before).insert(insertion as int, (pivot, vector@)));
            assert forall|i: int| 0 <= i < basis_view(basis@).len() implies (#[trigger] basis_view(basis@)[i]).1.len()
                == dim && basis_view(basis@)[i].0 < dim by {
                if i < insertion {
                    assert(basis_view(basis@)[i] == basis_view(basis_before)[i]);
                } else if i > insertion {
                    assert(basis_view(basis@)[i] == basis_view(basis_before)[i - 1]);
                }
            }
        }
        if basis.len() > budget.max_basis_vectors {
            proof {
                assert(search_step(st, pr, tr, dim) == Err::<SearchState, FactorizedSectionRefusal>(
                    FactorizedSectionRefusal::SourceBudgetExceeded,
                ));
            }
            return Err(FactorizedSectionRefusal::SourceBudgetExceeded);
        }
        let ghost pend0 = pending_view(pending@);
        proof {
            assert(pend0 == st.1);
            assert(search_step(st, pr, tr, dim) == match symbols_spec(u, pend0, b2, pr, tr, dim, 4) {
                Ok((p2, b3)) => Ok::<SearchState, FactorizedSectionRefusal>((basis_view(basis@), p2, st.2 + 1, b3)),
                Err(e) => Err(e),
            });
            assert(symbols_spec(u, pend0, b2, pr, tr, dim, 0) == Ok::<
                (Seq<Seq<Rational>>, LinearAddBudget),
                FactorizedSectionRefusal,
            >((pend0, b2)));
        }
        let mut symbol: usize = 0;
        while symbol < 4
            invariant
                symbol <= 4,
                vector@ == u,
                vector.len() == dimension,
                dimension <= 512,
                transitions.len() == dimension,
                profiles.len() == dimension,
                tr == transitions@,
                pr == profiles@,
                dim == dimension as int,
                transitions_fit(tr, dim),
                forall|i: int| 0 <= i < pending.len() ==> (#[trigger] pending@[i]).len() == dimension,
                pending.len() == pend0.len() + symbol,
                pend0.len() + 4 == 1 + 4 * basis.len(),
                budget.max_basis_vectors == 512,
                linear_add_spec(children@, *target) == match symbols_spec(u, pend0, b2, pr, tr, dim, 4) {
                    Ok((p2, b3)) => search_run(
                        (basis_view(basis@), p2, head as int, b3),
                        pr,
                        tr,
                        dim,
                        (search_fuel() - head) as nat,
                    ),
                    Err(e) => Err(e),
                },
                symbols_spec(u, pend0, b2, pr, tr, dim, symbol as int) == Ok::<
                    (Seq<Seq<Rational>>, LinearAddBudget),
                    FactorizedSectionRefusal,
                >((pending_view(pending@), budget)),
            decreases 4 - symbol,
        {
            match budget.charge(dimension * 3) {
                Ok(()) => {},
                Err(e) => {
                    proof {
                        lemma_symbols_stops(u, pend0, b2, pr, tr, dim, symbol + 1, 4);
                    }
                    return Err(e);
                },
            }
            let observation = match observe_exec(&vector, &profiles, symbol) {
                Ok(o) => o,
                Err(e) => {
                    proof {
                        lemma_symbols_stops(u, pend0, b2, pr, tr, dim, symbol + 1, 4);
                    }
                    return Err(e);
                },
            };
            if !observation.is_zero() {
                proof {
                    lemma_symbols_stops(u, pend0, b2, pr, tr, dim, symbol + 1, 4);
                }
                return Err(FactorizedSectionRefusal::CandidateMismatch);
            }
            let next = match destination_exec(&vector, &transitions, symbol, dimension) {
                Ok(d) => d,
                Err(e) => {
                    proof {
                        lemma_symbols_stops(u, pend0, b2, pr, tr, dim, symbol + 1, 4);
                    }
                    return Err(e);
                },
            };
            proof {
                lemma_pending_push(pending@, next);
            }
            pending.push(next);
            symbol += 1;
        }
    }
    Ok(())
}

/// Once the running total of the constants overflows, it stays refused.
proof fn lemma_r0_stops(children: Seq<BaseGraph>, k: int, m: int)
    requires
        0 <= k <= m,
        r0_total(children, k) is Err,
    ensures
        r0_total(children, m) == r0_total(children, k),
    decreases m - k,
{
    if k < m {
        lemma_r0_stops(children, k, m - 1);
    }
}

/// Reducing keeps the basis limit.
proof fn lemma_reduce_keeps_limit(
    v: Seq<Rational>,
    basis: Seq<(usize, Seq<Rational>)>,
    k: int,
    budget: LinearAddBudget,
    dimension: int,
)
    ensures
        reduce_rows(v, basis, k, budget, dimension) matches Ok((w, b)) ==> b.max_basis_vectors
            == budget.max_basis_vectors,
    decreases k,
{
    if k > 0 {
        lemma_reduce_keeps_limit(v, basis, k - 1, budget, dimension);
    }
}

/// Checking `s` symbols queues `s` vectors and keeps the basis limit.
proof fn lemma_symbols_queue(
    v: Seq<Rational>,
    pending: Seq<Seq<Rational>>,
    budget: LinearAddBudget,
    profiles: Seq<[i128; 4]>,
    transitions: Seq<[usize; 4]>,
    dimension: int,
    s: int,
)
    requires
        s >= 0,
    ensures
        symbols_spec(v, pending, budget, profiles, transitions, dimension, s) matches Ok((p, b)) ==> p.len()
            == pending.len() + s && b.max_basis_vectors == budget.max_basis_vectors,
    decreases s,
{
    if s > 0 {
        lemma_symbols_queue(v, pending, budget, profiles, transitions, dimension, s - 1);
    }
}

/// The search state keeps its queue position in range and its basis
/// within the limit of 512 rows.
pub open spec fn search_inv(st: SearchState) -> bool {
    &&& 0 <= st.2 <= st.1.len()
    &&& st.0.len() <= 512
    &&& st.3.max_basis_vectors == 512
}

/// An upper bound on the steps left: the queued vectors not yet taken,
/// and four for each basis row that may still be added.
pub open spec fn steps_left(st: SearchState) -> int {
    (st.1.len() - st.2) + 4 * (512 - st.0.len())
}

/// Each step takes one vector and queues four only when it adds a row, so
/// the bound on the steps left falls by one.
proof fn lemma_step_measure(
    st: SearchState,
    profiles: Seq<[i128; 4]>,
    transitions: Seq<[usize; 4]>,
    dimension: int,
)
    requires
        search_inv(st),
        st.2 < st.1.len(),
    ensures
        search_step(st, profiles, transitions, dimension) matches Ok(st2) ==> search_inv(st2) && steps_left(st2)
            == steps_left(st) - 1,
{
    let (basis, pending, head, budget) = st;
    lemma_reduce_keeps_limit(pending[head], basis, basis.len() as int, budget, dimension);
    if let Ok((w, b1)) = reduce_rows(pending[head], basis, basis.len() as int, budget, dimension) {
        if let Some(p) = first_nonzero_from(w, 0) {
            if let Ok(b2) = charge_spec(b1, dimension) {
                if let Ok(u) = div_all(w, w[p], w.len() as int) {
                    let basis2 = basis.insert(insertion_from(basis, p, 0), (p as usize, u));
                    lemma_insertion_range(basis, p, 0);
                    lemma_symbols_queue(u, pending, b2, profiles, transitions, dimension, 4);
                }
            }
        }
    }
}

/// Where a row goes lies among the rows.
proof fn lemma_insertion_range(basis: Seq<(usize, Seq<Rational>)>, p: int, i: int)
    requires
        0 <= i,
    ensures
        i <= basis.len() ==> i <= insertion_from(basis, p, i) <= basis.len(),
        insertion_from(basis, p, i) <= basis.len(),
        0 <= insertion_from(basis, p, i),
    decreases basis.len() - i,
{
    if i < basis.len() {
        lemma_insertion_range(basis, p, i + 1);
    }
}

/// Any fuel above the bound on the steps left gives the same answer: the
/// fuel never cuts the search short.
proof fn lemma_fuel_irrelevant(
    st: SearchState,
    profiles: Seq<[i128; 4]>,
    transitions: Seq<[usize; 4]>,
    dimension: int,
    f1: nat,
    f2: nat,
)
    requires
        search_inv(st),
        f1 > steps_left(st),
        f2 > steps_left(st),
    ensures
        search_run(st, profiles, transitions, dimension, f1) == search_run(st, profiles, transitions, dimension, f2),
    decreases f1,
{
    if st.2 < st.1.len() {
        lemma_step_measure(st, profiles, transitions, dimension);
        if let Ok(st2) = search_step(st, profiles, transitions, dimension) {
            lemma_fuel_irrelevant(st2, profiles, transitions, dimension, (f1 - 1) as nat, (f2 - 1) as nat);
        }
    }
}

/// The fuel of the linear certificate's search suffices: from its start,
/// the search gives the same answer with the fixed fuel as with any more.
pub proof fn lemma_search_fuel_suffices(
    children: Seq<BaseGraph>,
    profiles: Seq<[i128; 4]>,
    transitions: Seq<[usize; 4]>,
    dimension: int,
    fuel: nat,
)
    requires
        fuel >= search_fuel(),
    ensures
        search_run(
            (Seq::empty(), seq![initial_vector(children, dimension)], 0, fresh_budget()),
            profiles,
            transitions,
            dimension,
            search_fuel(),
        ) == search_run(
            (Seq::empty(), seq![initial_vector(children, dimension)], 0, fresh_budget()),
            profiles,
            transitions,
            dimension,
            fuel,
        ),
{
    let st: SearchState = (Seq::empty(), seq![initial_vector(children, dimension)], 0, fresh_budget());
    assert(steps_left(st) == 1 + 4 * 512);
    lemma_fuel_irrelevant(st, profiles, transitions, dimension, search_fuel(), fuel);
}

} // verus!
