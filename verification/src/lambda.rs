//! Integer recovery of substitution coefficients ("lambdas"): given the
//! signed signatures `x` of an expression and `y` of a zero-signature
//! expression, find a multiplier `v` with which `x - v * y` takes only the
//! values `a` and `b`, and `a` on the first entry.
use vstd::prelude::*;
use crate::simplify::get_signed;
use crate::varint::{mask_of, signed_of};

verus! {

/// The signed reading of the low `n` bits of `v`.
pub open spec fn sread(v: u64, n: u8) -> i64 {
    signed_of(v & mask_of(n as nat), n as nat) as i64
}

/// The multiplier `v` with `xi - t == v * yi`, when `yi` divides `xi - t`
/// (the subtraction wrapping).
pub open spec fn candidate(xi: i64, t: i64, yi: i64) -> Option<i64> {
    let r = xi.wrapping_sub(t);
    if r.checked_rem(yi) == Some(0i64) {
        r.checked_div(yi)
    } else {
        None
    }
}

/// The candidates `c0` and `c1` that were already candidates (`va`, `vb`),
/// in order.
pub open spec fn merge(va: Option<i64>, vb: Option<i64>, c0: Option<i64>, c1: Option<i64>) -> (
    Option<i64>,
    Option<i64>,
) {
    let keep0 = c0 is Some && (va == c0 || vb == c0);
    let keep1 = c1 is Some && (va == c1 || vb == c1);
    if keep0 && keep1 {
        (c0, c1)
    } else if keep0 {
        (c0, None)
    } else if keep1 {
        (c1, None)
    } else {
        (None, None)
    }
}

/// One entry read: `None` when the entry refutes every multiplier, else the
/// candidates still standing (`None` inside while no entry with a nonzero
/// `yi` has been read).
pub open spec fn lambda_step(valid: Option<(Option<i64>, Option<i64>)>, xi: i64, yi: i64, a: i64, b: i64) -> Option<
    Option<(Option<i64>, Option<i64>)>,
> {
    if yi == 0 {
        if xi == a || xi == b {
            Some(valid)
        } else {
            None
        }
    } else {
        let c0 = candidate(xi, a, yi);
        let c1 = candidate(xi, b, yi);
        let next = match valid {
            None => (c0, c1),
            Some((va, vb)) => merge(va, vb, c0, c1),
        };
        if next == (None::<i64>, None::<i64>) {
            None
        } else {
            Some(Some(next))
        }
    }
}

/// The candidates after the first `k` entries, or `None` once refuted.
pub open spec fn lambda_scan(xs: Seq<i64>, ys: Seq<i64>, a: i64, b: i64, k: nat) -> Option<
    Option<(Option<i64>, Option<i64>)>,
>
    decreases k,
{
    if k == 0 {
        Some(None)
    } else {
        match lambda_scan(xs, ys, a, b, (k - 1) as nat) {
            Some(valid) => lambda_step(valid, xs[k - 1], ys[k - 1], a, b),
            None => None,
        }
    }
}

/// Reading entry `k` divides the minimum signed value by -1.
pub open spec fn lambda_overflows(xs: Seq<i64>, ys: Seq<i64>, a: i64, b: i64, k: int) -> bool {
    &&& lambda_scan(xs, ys, a, b, k as nat) is Some
    &&& ys[k] == -1
    &&& (xs[k].wrapping_sub(a) == i64::MIN || xs[k].wrapping_sub(b) == i64::MIN)
}

/// `v` turns entry 0 into `a`.
pub open spec fn first_is_a(xs: Seq<i64>, ys: Seq<i64>, a: i64, v: i64) -> bool {
    xs[0].wrapping_sub(v.wrapping_mul(ys[0])) == a
}

/// The multiplier found among the last candidates, masked to `n` bits.
pub open spec fn lambda_result(xs: Seq<i64>, ys: Seq<i64>, a: i64, b: i64, n: u8, m: nat) -> Option<u64> {
    match lambda_scan(xs, ys, a, b, m) {
        None => None,
        Some(None) => Some(0u64),
        Some(Some((v0, v1))) => if v0 is Some && first_is_a(xs, ys, a, v0->Some_0) {
            Some((v0->Some_0 as u64) & mask_of(n as nat))
        } else if v1 is Some && first_is_a(xs, ys, a, v1->Some_0) {
            Some((v1->Some_0 as u64) & mask_of(n as nat))
        } else {
            None
        },
    }
}

/// The number of entries two signatures pair up: the shorter length.
pub open spec fn paired(x: Seq<u64>, y: Seq<u64>) -> nat {
    if x.len() < y.len() {
        x.len()
    } else {
        y.len()
    }
}

/// The signed readings of the first `m` entries.
pub open spec fn sreads(x: Seq<u64>, n: u8, m: nat) -> Seq<i64> {
    Seq::new(m, |i: int| sread(x[i], n))
}

/// The multiplier `v` with which `x - v * y` is `a` or `b` on every entry
/// (the entries read as `n`-bit signed numbers, paired up to the shorter of
/// the two), narrowed entry by entry; among the last two candidates the
/// first that makes entry 0 `a` is returned masked to `n` bits, and 0 when
/// every `y` entry is 0 and every `x` entry is `a` or `b`.
pub fn find_lambda_int(x: &[u64], y: &[u64], a: i64, b: i64, n: u8) -> (r: Option<u64>)
    requires
        (x.len() > 0 && y.len() > 0) ==> 1 <= n <= 64,
        forall|k: int|
            0 <= k < paired(x@, y@) ==> !#[trigger] lambda_overflows(
                sreads(x@, n, paired(x@, y@)),
                sreads(y@, n, paired(x@, y@)),
                a,
                b,
                k,
            ),
    ensures
        r == lambda_result(sreads(x@, n, paired(x@, y@)), sreads(y@, n, paired(x@, y@)), a, b, n, paired(x@, y@)),
{
    let m = if x.len() < y.len() { x.len() } else { y.len() };
    let ghost xs = sreads(x@, n, m as nat);
    let ghost ys = sreads(y@, n, m as nat);
    let mut valid: Option<(Option<i64>, Option<i64>)> = None;
    let mut i: usize = 0;
    while i < m
        invariant
            i <= m,
            m == paired(x@, y@),
            xs == sreads(x@, n, m as nat),
            ys == sreads(y@, n, m as nat),
            m > 0 ==> 1 <= n <= 64,
            forall|k: int| 0 <= k < m ==> !#[trigger] lambda_overflows(xs, ys, a, b, k),
            lambda_scan(xs, ys, a, b, i as nat) == Some(valid),
        decreases m - i,
    {
        let xi = get_signed(x[i], n);
        let yi = get_signed(y[i], n);
        proof {
            assert(xs[i as int] == xi);
            assert(ys[i as int] == yi);
            assert(!lambda_overflows(xs, ys, a, b, i as int));
        }
        if yi == 0 {
            if xi == a || xi == b {
                i += 1;
                continue;
            } else {
                proof {
                    lemma_scan_stops(xs, ys, a, b, (i + 1) as nat, m as nat);
                }
                return None;
            }
        }
        let mut vals: [Option<i64>; 2] = [None, None];
        let ra = xi.wrapping_sub(a);
        if ra.checked_rem(yi) == Some(0i64) {
            vals[0] = ra.checked_div(yi);
        }
        let rb = xi.wrapping_sub(b);
        if rb.checked_rem(yi) == Some(0i64) {
            vals[1] = rb.checked_div(yi);
        }
        let next = match valid {
            None => (vals[0], vals[1]),
            Some((va, vb)) => {
                let mut new: (Option<i64>, Option<i64>) = (None, None);
                let mut j: usize = 0;
                while j < 2
                    invariant
                        j <= 2,
                        new == (if j == 0 {
                            (None::<i64>, None::<i64>)
                        } else if j == 1 {
                            merge(va, vb, vals[0], None)
                        } else {
                            merge(va, vb, vals[0], vals[1])
                        }),
                    decreases 2 - j,
                {
                    if let Some(v) = vals[j] {
                        if va == Some(v) || vb == Some(v) {
                            if new.0.is_none() {
                                new.0 = Some(v);
                            } else {
                                new.1 = Some(v);
                            }
                        }
                    }
                    j += 1;
                }
                new
            },
        };
        proof {
            assert(vals[0] == candidate(xi, a, yi));
            assert(vals[1] == candidate(xi, b, yi));
        }
        if next.0.is_none() && next.1.is_none() {
            proof {
                lemma_scan_stops(xs, ys, a, b, (i + 1) as nat, m as nat);
            }
            return None;
        }
        valid = Some(next);
        i += 1;
    }
    match valid {
        None => Some(0),
        Some((v0, v1)) => {
            let mask = crate::varint::make_mask(n);
            let x0 = get_signed(x[0], n);
            let y0 = get_signed(y[0], n);
            proof {
                assert(xs[0] == x0 && ys[0] == y0);
            }
            if let Some(v) = v0 {
                if x0.wrapping_sub(v.wrapping_mul(y0)) == a {
                    return Some((#[verifier::truncate] (v as u64)) & mask);
                }
            }
            if let Some(v) = v1 {
                if x0.wrapping_sub(v.wrapping_mul(y0)) == a {
                    return Some((#[verifier::truncate] (v as u64)) & mask);
                }
            }
            None
        },
    }
}

/// Once the entries are refuted, every longer prefix is refuted.
proof fn lemma_scan_stops(xs: Seq<i64>, ys: Seq<i64>, a: i64, b: i64, k: nat, m: nat)
    requires
        k <= m,
        lambda_scan(xs, ys, a, b, k) is None,
    ensures
        lambda_scan(xs, ys, a, b, m) is None,
    decreases m - k,
{
    if k < m {
        lemma_scan_stops(xs, ys, a, b, k + 1, m);
    }
}

} // verus!
verus! {

/// `v` turns the entry `(xi, yi)` into `a` or `b`.
pub open spec fn corrects(xi: i64, yi: i64, v: i64, a: i64, b: i64) -> bool {
    let c = xi.wrapping_sub(v.wrapping_mul(yi));
    c == a || c == b
}

/// An exact quotient times the divisor gives back the dividend.
proof fn lemma_exact_quotient(r: i64, y: i64)
    requires
        y != 0,
        !(r == i64::MIN && y == -1),
        r.checked_rem(y) == Some(0i64),
    ensures
        r.checked_div(y) is Some,
        r.checked_div(y)->Some_0 * y == r,
{
    let ri = r as int;
    let yi = y as int;
    let q: int = if ri == 0 {
        0
    } else if ri > 0 && yi > 0 {
        ri / yi
    } else if ri < 0 && yi < 0 {
        (ri * -1) / (yi * -1)
    } else if ri < 0 {
        ((ri * -1) / yi) * -1
    } else {
        (ri / (yi * -1)) * -1
    };
    if ri > 0 && yi > 0 {
        assert(ri % yi == 0);
        lemma_quotient_parts(ri, yi);
        assert(q * yi == ri) by (nonlinear_arith)
            requires
                ri == yi * q,
        ;
    } else if ri < 0 && yi < 0 {
        assert((ri * -1) % (yi * -1) == 0);
        lemma_quotient_parts(ri * -1, yi * -1);
        assert(q * yi == ri) by (nonlinear_arith)
            requires
                ri * -1 == (yi * -1) * q,
        ;
    } else if ri < 0 {
        assert((ri * -1) % yi == 0);
        lemma_quotient_parts(ri * -1, yi);
        let p = (ri * -1) / yi;
        assert(q * yi == ri) by (nonlinear_arith)
            requires
                ri * -1 == yi * p,
                q == p * -1,
        ;
    } else if ri > 0 {
        assert(ri % (yi * -1) == 0);
        lemma_quotient_parts(ri, yi * -1);
        let p = ri / (yi * -1);
        assert(q * yi == ri) by (nonlinear_arith)
            requires
                ri == (yi * -1) * p,
                q == p * -1,
        ;
    }
    assert(i64::MIN <= q <= i64::MAX);
    assert(r.checked_div(y) == Some(q as i64));
}

/// A positive number divisible by `d` is `d` times its quotient, which is
/// no larger than it.
proof fn lemma_quotient_parts(x: int, d: int)
    requires
        x > 0,
        d > 0,
        x % d == 0,
    ensures
        x == d * (x / d),
        0 <= x / d <= x,
        d >= 2 ==> 2 * (x / d) <= x,
{
    vstd::arithmetic::div_mod::lemma_fundamental_div_mod(x, d);
    vstd::arithmetic::div_mod::lemma_div_pos_is_pos(x, d);
    vstd::arithmetic::div_mod::lemma_div_is_ordered_by_denominator(x, 1, d);
    vstd::arithmetic::div_mod::lemma_div_basics(x);
    let q = x / d;
    assert(d >= 2 ==> 2 * q <= x) by (nonlinear_arith)
        requires
            x == d * q,
            q >= 0,
    ;
}

/// A candidate multiplier turns its entry into the value it was found for.
proof fn lemma_candidate_corrects(xi: i64, t: i64, yi: i64)
    requires
        yi != 0,
        !(xi.wrapping_sub(t) == i64::MIN && yi == -1),
        candidate(xi, t, yi) is Some,
    ensures
        xi.wrapping_sub(candidate(xi, t, yi)->Some_0.wrapping_mul(yi)) == t,
{
    let r = xi.wrapping_sub(t);
    lemma_exact_quotient(r, yi);
    let v = candidate(xi, t, yi)->Some_0;
    let p = v as int * yi as int;
    assert(p == r as int);
    let m: int = 0x1_0000_0000_0000_0000;
    if r < 0 {
        vstd::arithmetic::div_mod::lemma_mod_multiples_vanish(1, r as int, m);
        vstd::arithmetic::div_mod::lemma_small_mod((r + m) as nat, m as nat);
    } else {
        vstd::arithmetic::div_mod::lemma_small_mod(r as nat, m as nat);
    }
    assert(v.wrapping_mul(yi) == r);
}

/// Every standing candidate turns every entry read so far into `a` or
/// `b`; before the first nonzero `y` entry, every `x` entry is `a` or `b`
/// and every `y` entry is 0.
proof fn lemma_scan_corrects(xs: Seq<i64>, ys: Seq<i64>, a: i64, b: i64, k: nat)
    requires
        k <= xs.len(),
        k <= ys.len(),
        forall|j: int| 0 <= j < k ==> !#[trigger] lambda_overflows(xs, ys, a, b, j),
    ensures
        lambda_scan(xs, ys, a, b, k) matches Some(None) ==> forall|i: int|
            0 <= i < k ==> ys[i] == 0 && (xs[i] == a || xs[i] == b),
        lambda_scan(xs, ys, a, b, k) matches Some(Some((v0, v1))) ==> (v0 is Some ==> forall|i: int|
            0 <= i < k ==> corrects(xs[i], ys[i], v0->Some_0, a, b)) && (v1 is Some ==> forall|i: int|
            0 <= i < k ==> corrects(xs[i], ys[i], v1->Some_0, a, b)),
    decreases k,
{
    if k > 0 {
        let j = (k - 1) as int;
        lemma_scan_corrects(xs, ys, a, b, (k - 1) as nat);
        assert(!lambda_overflows(xs, ys, a, b, j));
        if let Some(valid) = lambda_scan(xs, ys, a, b, (k - 1) as nat) {
            let xi = xs[j];
            let yi = ys[j];
            if yi != 0 {
                let c0 = candidate(xi, a, yi);
                let c1 = candidate(xi, b, yi);
                if c0 is Some {
                    lemma_candidate_corrects(xi, a, yi);
                }
                if c1 is Some {
                    lemma_candidate_corrects(xi, b, yi);
                }
                if valid is None {
                    assert forall|v: i64, i: int| 0 <= i < j implies #[trigger] corrects(xs[i], ys[i], v, a, b) by {
                        assert(ys[i] == 0);
                        assert(v.wrapping_mul(0i64) == 0) by {
                            vstd::arithmetic::div_mod::lemma_small_mod(0, 0x1_0000_0000_0000_0000);
                        }
                    }
                }
            } else {
                if let Some((v0, v1)) = valid {
                    assert forall|v: i64| #[trigger] v.wrapping_mul(0i64) == 0 by {
                        vstd::arithmetic::div_mod::lemma_small_mod(0, 0x1_0000_0000_0000_0000);
                    }
                }
            }
        }
    }
}

/// `v` is a multiplier whose low `n` bits are `u`, that turns the first
/// `m` entries into `a` or `b`, and entry 0 into `a` unless every `y`
/// entry is 0.
pub open spec fn good_lambda(xs: Seq<i64>, ys: Seq<i64>, a: i64, b: i64, n: u8, m: nat, u: u64, v: i64) -> bool {
    &&& u == (v as u64) & mask_of(n as nat)
    &&& forall|i: int| 0 <= i < m ==> corrects(xs[i], ys[i], v, a, b)
    &&& (exists|i: int| 0 <= i < m && ys[i] != 0) ==> first_is_a(xs, ys, a, v)
}

/// What `find_lambda_int` returns is a multiplier, masked to `n` bits,
/// that turns every paired entry into `a` or `b`, and entry 0 into `a`
/// unless every `y` entry is 0.
pub proof fn lemma_lambda_sound(xs: Seq<i64>, ys: Seq<i64>, a: i64, b: i64, n: u8, m: nat)
    requires
        m <= xs.len(),
        m <= ys.len(),
        forall|k: int| 0 <= k < m ==> !#[trigger] lambda_overflows(xs, ys, a, b, k),
        lambda_result(xs, ys, a, b, n, m) is Some,
    ensures
        exists|v: i64| #[trigger] good_lambda(xs, ys, a, b, n, m, lambda_result(xs, ys, a, b, n, m)->Some_0, v),
{
    let u = lambda_result(xs, ys, a, b, n, m)->Some_0;
    lemma_scan_corrects(xs, ys, a, b, m);
    match lambda_scan(xs, ys, a, b, m) {
        Some(None) => {
            let v = 0i64;
            assert(v.wrapping_mul(0i64) == 0) by {
                vstd::arithmetic::div_mod::lemma_small_mod(0, 0x1_0000_0000_0000_0000);
            }
            let mk = mask_of(n as nat);
            assert(0u64 & mk == 0) by (bit_vector);
            assert(forall|i: int| 0 <= i < m ==> corrects(xs[i], ys[i], v, a, b));
            assert(good_lambda(xs, ys, a, b, n, m, u, v));
        },
        Some(Some((v0, v1))) => {
            if v0 is Some && first_is_a(xs, ys, a, v0->Some_0) {
                let v = v0->Some_0;
                assert(good_lambda(xs, ys, a, b, n, m, u, v));
            } else {
                let v = v1->Some_0;
                assert(good_lambda(xs, ys, a, b, n, m, u, v));
            }
        },
        None => {},
    }
}

} // verus!
verus! {

/// An entry's value after subtracting `ly` times its `y` and `lz` times
/// its `z` (wrapping).
pub open spec fn corrected(t: (i64, i64, i64), ly: i64, lz: i64) -> i64 {
    t.0.wrapping_sub(ly.wrapping_mul(t.1)).wrapping_sub(lz.wrapping_mul(t.2))
}

/// The signed readings of the first `m` entries of three signatures.
pub open spec fn triples(x: Seq<u64>, y: Seq<u64>, z: Seq<u64>, n: u8, m: nat) -> Seq<(i64, i64, i64)> {
    Seq::new(m, |i: int| (sread(x[i], n), sread(y[i], n), sread(z[i], n)))
}

/// The first entry whose `y` or `z` is nonzero, searching from `k`.
pub open spec fn first_nonzero(sig: Seq<(i64, i64, i64)>, k: int) -> Option<int>
    decreases sig.len() - k,
{
    if k >= sig.len() {
        None
    } else if sig[k].1 != 0 || sig[k].2 != 0 {
        Some(k)
    } else {
        first_nonzero(sig, k + 1)
    }
}

/// The multipliers solving the two equations of entries `base` and
/// `second` for the targets `t0` and `t1` by Cramer's rule, when the
/// determinant is nonzero and both divide exactly into 64-bit values.
pub open spec fn cramer(sig: Seq<(i64, i64, i64)>, base: int, second: int, t0: i64, t1: i64) -> Option<(i64, i64)> {
    let (x0, y0, z0) = sig[base];
    let (x1, y1, z1) = sig[second];
    let det = (y0 * z1 - y1 * z0) as i128;
    let rhs0 = x0.wrapping_sub(t0);
    let rhs1 = x1.wrapping_sub(t1);
    let ly = (rhs0 * z1 - rhs1 * z0) as i128;
    let lz = (y0 * rhs1 - y1 * rhs0) as i128;
    if det == 0 || ly.checked_rem(det) != Some(0i128) || lz.checked_rem(det) != Some(0i128) {
        None
    } else {
        let qy = ly.checked_div(det)->Some_0;
        let qz = lz.checked_div(det)->Some_0;
        if i64::MIN <= qy <= i64::MAX && i64::MIN <= qz <= i64::MAX {
            Some((qy as i64, qz as i64))
        } else {
            None
        }
    }
}

/// The multipliers make entry 0 `a` and every entry `a` or `b`.
pub open spec fn two_lambdas_fit(sig: Seq<(i64, i64, i64)>, a: i64, b: i64, ly: i64, lz: i64) -> bool {
    &&& corrected(sig[0], ly, lz) == a
    &&& forall|i: int| 0 <= i < sig.len() ==> #[trigger] corrected(sig[i], ly, lz) == a || corrected(sig[i], ly, lz)
        == b
}

/// The candidate at step `k` of the search: entry `k / 4` as the second
/// equation, with targets `a` or `b` chosen by the two low bits of `k`.
pub open spec fn two_lambdas_at(sig: Seq<(i64, i64, i64)>, a: i64, b: i64, base: int, k: int) -> Option<(i64, i64)> {
    let t0 = if (k / 2) % 2 == 0 { a } else { b };
    let t1 = if k % 2 == 0 { a } else { b };
    match cramer(sig, base, k / 4, t0, t1) {
        Some((ly, lz)) => if two_lambdas_fit(sig, a, b, ly, lz) {
            Some((ly, lz))
        } else {
            None
        },
        None => None,
    }
}

/// The first fitting candidate from step `k` on.
pub open spec fn two_lambdas_from(sig: Seq<(i64, i64, i64)>, a: i64, b: i64, base: int, k: int) -> Option<(i64, i64)>
    decreases 4 * sig.len() - k,
{
    if k >= 4 * sig.len() || k < 0 {
        None
    } else {
        match two_lambdas_at(sig, a, b, base, k) {
            Some(p) => Some(p),
            None => two_lambdas_from(sig, a, b, base, k + 1),
        }
    }
}

/// What `find_two_lambdas_int` returns: the first fitting pair, masked.
pub open spec fn two_lambdas_result(sig: Seq<(i64, i64, i64)>, a: i64, b: i64, n: u8) -> Option<(u64, u64)> {
    match first_nonzero(sig, 0) {
        None => None,
        Some(base) => match two_lambdas_from(sig, a, b, base, 0) {
            Some((ly, lz)) => Some(((ly as u64) & mask_of(n as nat), (lz as u64) & mask_of(n as nat))),
            None => None,
        },
    }
}

/// A product of two 64-bit values is within `2^126` and leaves room below.
proof fn lemma_product_bounds(s: int, t: int)
    requires
        i64::MIN <= s <= i64::MAX,
        i64::MIN <= t <= i64::MAX,
    ensures
        -0x4000_0000_0000_0000_0000_0000_0000_0000 + 0x8000_0000_0000_0000 <= s * t
            <= 0x4000_0000_0000_0000_0000_0000_0000_0000,
{
    let m: int = 0x8000_0000_0000_0000;
    assert(-m * m + m <= s * t <= m * m) by (nonlinear_arith)
        requires
            -m <= s <= m - 1,
            -m <= t <= m - 1,
            m > 0,
    ;
}

/// The difference of two such products fits in an `i128`.
proof fn lemma_cross_fits(p: int, q: int, r: int, s: int)
    requires
        i64::MIN <= p <= i64::MAX,
        i64::MIN <= q <= i64::MAX,
        i64::MIN <= r <= i64::MAX,
        i64::MIN <= s <= i64::MAX,
    ensures
        i128::MIN <= p * q - r * s <= i128::MAX,
        i128::MIN <= p * q <= i128::MAX,
        i128::MIN <= r * s <= i128::MAX,
{
    lemma_product_bounds(p, q);
    lemma_product_bounds(r, s);
}

/// A difference of two products of 64-bit values, in `i128`.
fn cross(p: i64, q: i64, r: i64, s: i64) -> (d: i128)
    ensures
        d == p * q - r * s,
{
    proof {
        lemma_cross_fits(p as int, q as int, r as int, s as int);
    }
    (p as i128) * (q as i128) - (r as i128) * (s as i128)
}

/// The multipliers of `cramer`.
fn cramer_exec(sig: &Vec<(i64, i64, i64)>, base: usize, second: usize, t0: i64, t1: i64) -> (r: Option<(i64, i64)>)
    requires
        base < sig.len(),
        second < sig.len(),
    ensures
        r == cramer(sig@, base as int, second as int, t0, t1),
{
    let (x0, y0, z0) = sig[base];
    let (x1, y1, z1) = sig[second];
    let det = cross(y0, z1, y1, z0);
    let rhs0 = x0.wrapping_sub(t0);
    let rhs1 = x1.wrapping_sub(t1);
    let ly = cross(rhs0, z1, rhs1, z0);
    let lz = cross(y0, rhs1, y1, rhs0);
    if det == 0 {
        return None;
    }
    proof {
        lemma_cross_fits(rhs0 as int, z1 as int, rhs1 as int, z0 as int);
        lemma_product_bounds(rhs0 as int, z1 as int);
        lemma_product_bounds(rhs1 as int, z0 as int);
        lemma_product_bounds(y0 as int, rhs1 as int);
        lemma_product_bounds(y1 as int, rhs0 as int);
    }
    if ly.checked_rem(det) != Some(0i128) || lz.checked_rem(det) != Some(0i128) {
        return None;
    }
    let qy = match ly.checked_div(det) {
        Some(q) => q,
        None => {
            return None;
        },
    };
    let qz = match lz.checked_div(det) {
        Some(q) => q,
        None => {
            return None;
        },
    };
    if qy < i64::MIN as i128 || qy > i64::MAX as i128 || qz < i64::MIN as i128 || qz > i64::MAX as i128 {
        return None;
    }
    Some((qy as i64, qz as i64))
}

/// An entry's corrected value.
fn corrected_exec(t: (i64, i64, i64), ly: i64, lz: i64) -> (r: i64)
    ensures
        r == corrected(t, ly, lz),
{
    t.0.wrapping_sub(ly.wrapping_mul(t.1)).wrapping_sub(lz.wrapping_mul(t.2))
}

/// Whether the multipliers fit every entry.
fn fits_exec(sig: &Vec<(i64, i64, i64)>, a: i64, b: i64, ly: i64, lz: i64) -> (r: bool)
    requires
        sig.len() > 0,
    ensures
        r == two_lambdas_fit(sig@, a, b, ly, lz),
{
    if corrected_exec(sig[0], ly, lz) != a {
        return false;
    }
    let mut i: usize = 0;
    while i < sig.len()
        invariant
            i <= sig.len(),
            forall|k: int| 0 <= k < i ==> #[trigger] corrected(sig@[k], ly, lz) == a || corrected(sig@[k], ly, lz) == b,
        decreases sig.len() - i,
    {
        let v = corrected_exec(sig[i], ly, lz);
        if v != a && v != b {
            return false;
        }
        i += 1;
    }
    true
}

/// The number of entries three signatures pair up: the shortest length.
pub open spec fn paired3(x: Seq<u64>, y: Seq<u64>, z: Seq<u64>) -> nat {
    let m = paired(x, y);
    if m < z.len() {
        m
    } else {
        z.len()
    }
}

/// Two multipliers `ly` and `lz` with which `x - ly * y - lz * z` takes
/// only the values `a` and `b`, and `a` on entry 0 (the entries read as
/// `n`-bit signed numbers, up to the shortest signature): each later entry
/// in turn is paired with the first entry whose `y` or `z` is nonzero, and
/// the two equations, with the targets `a`/`b` tried in order, are solved
/// exactly by Cramer's rule; the first solution that fits every entry is
/// returned masked to `n` bits.
pub fn find_two_lambdas_int(x: &[u64], y: &[u64], z: &[u64], a: i64, b: i64, n: u8) -> (r: Option<(u64, u64)>)
    requires
        paired3(x@, y@, z@) > 0 ==> 1 <= n <= 64,
    ensures
        r == two_lambdas_result(triples(x@, y@, z@, n, paired3(x@, y@, z@)), a, b, n),
{
    let m0 = if x.len() < y.len() { x.len() } else { y.len() };
    let m = if m0 < z.len() { m0 } else { z.len() };
    let ghost sig = triples(x@, y@, z@, n, m as nat);
    let mut signed: Vec<(i64, i64, i64)> = Vec::new();
    let mut i: usize = 0;
    while i < m
        invariant
            i <= m,
            m == paired3(x@, y@, z@),
            m <= x.len() && m <= y.len() && m <= z.len(),
            m > 0 ==> 1 <= n <= 64,
            sig == triples(x@, y@, z@, n, m as nat),
            signed@ == sig.take(i as int),
        decreases m - i,
    {
        let t = (get_signed(x[i], n), get_signed(y[i], n), get_signed(z[i], n));
        signed.push(t);
        proof {
            assert(signed@ =~= sig.take(i + 1));
        }
        i += 1;
    }
    proof {
        assert(signed@ =~= sig);
    }
    let mut base: usize = 0;
    while base < signed.len() && signed[base].1 == 0 && signed[base].2 == 0
        invariant
            base <= signed.len(),
            signed@ == sig,
            first_nonzero(sig, 0) == first_nonzero(sig, base as int),
            sig == triples(x@, y@, z@, n, paired3(x@, y@, z@)),
            paired3(x@, y@, z@) > 0 ==> 1 <= n <= 64,
        decreases signed.len() - base,
    {
        base += 1;
    }
    if base == signed.len() {
        return None;
    }
    let targets = [a, b];
    let mut second: usize = 0;
    while second < signed.len()
        invariant
            second <= signed.len(),
            base < signed.len(),
            signed@ == sig,
            first_nonzero(sig, 0) == Some(base as int),
            targets@ == seq![a, b],
            sig == triples(x@, y@, z@, n, paired3(x@, y@, z@)),
            paired3(x@, y@, z@) > 0 ==> 1 <= n <= 64,
            two_lambdas_from(sig, a, b, base as int, 0) == two_lambdas_from(sig, a, b, base as int, 4 * second),
        decreases signed.len() - second,
    {
        let mut k: usize = 0;
        while k < 4
            invariant
                k <= 4,
                second < signed.len(),
                base < signed.len(),
                signed@ == sig,
                first_nonzero(sig, 0) == Some(base as int),
                targets@ == seq![a, b],
                sig == triples(x@, y@, z@, n, paired3(x@, y@, z@)),
                paired3(x@, y@, z@) > 0 ==> 1 <= n <= 64,
                two_lambdas_from(sig, a, b, base as int, 0) == two_lambdas_from(
                    sig,
                    a,
                    b,
                    base as int,
                    4 * second + k,
                ),
            decreases 4 - k,
        {
            let t0 = targets[k / 2];
            let t1 = targets[k % 2];
            let ghost step = 4 * second + k;
            proof {
                assert(step / 4 == second && (step / 2) % 2 == k / 2 && step % 2 == k % 2);
            }
            match cramer_exec(&signed, base, second, t0, t1) {
                Some((ly, lz)) => {
                    if fits_exec(&signed, a, b, ly, lz) {
                        proof {
                            assert(t0 == if (step / 2) % 2 == 0 { a } else { b });
                            assert(t1 == if step % 2 == 0 { a } else { b });
                            assert(two_lambdas_at(sig, a, b, base as int, step) == Some((ly, lz)));
                            assert(two_lambdas_from(sig, a, b, base as int, step) == Some((ly, lz)));
                        }
                        let mask = crate::varint::make_mask(n);
                        return Some(
                            ((#[verifier::truncate] (ly as u64)) & mask, (#[verifier::truncate] (lz as u64)) & mask),
                        );
                    }
                },
                None => {},
            }
            k += 1;
        }
        second += 1;
    }
    None
}

/// A pair the search returns fits every entry.
proof fn lemma_two_lambdas_from_fit(sig: Seq<(i64, i64, i64)>, a: i64, b: i64, base: int, k: int)
    ensures
        two_lambdas_from(sig, a, b, base, k) matches Some((ly, lz)) ==> two_lambdas_fit(sig, a, b, ly, lz),
    decreases 4 * sig.len() - k,
{
    if 0 <= k < 4 * sig.len() {
        lemma_two_lambdas_from_fit(sig, a, b, base, k + 1);
    }
}

/// What `find_two_lambdas_int` returns are two multipliers, masked to `n`
/// bits, that turn entry 0 into `a` and every entry into `a` or `b`.
pub proof fn lemma_two_lambdas_sound(sig: Seq<(i64, i64, i64)>, a: i64, b: i64, n: u8)
    requires
        two_lambdas_result(sig, a, b, n) is Some,
    ensures
        exists|ly: i64, lz: i64|
            {
                &&& #[trigger] two_lambdas_fit(sig, a, b, ly, lz)
                &&& two_lambdas_result(sig, a, b, n) == Some(
                    ((ly as u64) & mask_of(n as nat), (lz as u64) & mask_of(n as nat)),
                )
            },
{
    let base = first_nonzero(sig, 0)->Some_0;
    lemma_two_lambdas_from_fit(sig, a, b, base, 0);
    let (ly, lz) = two_lambdas_from(sig, a, b, base, 0)->Some_0;
    assert(two_lambdas_fit(sig, a, b, ly, lz));
}

} // verus!
