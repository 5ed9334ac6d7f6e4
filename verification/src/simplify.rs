//! Building blocks of the linear MBA solver: signed readings of words,
//! signature updates and truth-table inference.
use vstd::prelude::*;
use vstd::arithmetic::div_mod::lemma_fundamental_div_mod_converse;
use vstd::arithmetic::power2::pow2;
use vstd::bits::{lemma_u64_pow2_no_overflow, lemma_u64_shl_is_mul};
use crate::varint::{lemma_signed_shift, make_mask, mask_of, signed_of};
pub use crate::cache::CacheStats;

verus! {

/// The low `n` bits of `x` read as a two's complement number.
pub fn get_signed(x: u64, n: u8) -> (r: i64)
    requires
        1 <= n <= 64,
    ensures
        r as int == signed_of(x & mask_of(n as nat), n as nat),
{
    let value = x & make_mask(n);
    let shift = 64 - n;
    proof {
        lemma_signed_shift(value, n);
    }
    ((value << shift) as i64) >> shift
}

/// Every variable of `sublist` after the first is set in the index `i`.
pub open spec fn vars_true(i: int, sublist: Seq<usize>) -> bool {
    forall|k: int| 1 <= k < sublist.len() ==> ((i as u64) >> #[trigger] sublist[k]) & 1 == 1
}

/// The entry `i` of a signature takes the coefficient of the conjunction
/// `sublist` placed from `index`: it lies in the first half of a period of
/// `2^(sublist[0] + 1)` entries counted from `index`, and the other variables
/// of the conjunction are set in it.
pub open spec fn coeff_applies(i: int, index: int, sublist: Seq<usize>) -> bool {
    let gp = pow2(sublist[0] as nat) as int;
    &&& i >= index
    &&& (i - index) % (2 * gp) < gp
    &&& (sublist.len() == 1 || vars_true(i, sublist))
}

/// Whether every variable of `sublist` after the first is set in `i`.
fn are_vars_true(i: usize, sublist: &[usize]) -> (r: bool)
    requires
        sublist.len() >= 1,
        forall|k: int| 0 <= k < sublist.len() ==> #[trigger] sublist@[k] < 64,
    ensures
        r == vars_true(i as int, sublist@),
{
    let mut k: usize = 1;
    while k < sublist.len()
        invariant
            1 <= k <= sublist.len(),
            forall|j: int| 0 <= j < sublist.len() ==> #[trigger] sublist@[j] < 64,
            forall|j: int| 1 <= j < k ==> ((i as u64) >> #[trigger] sublist@[j]) & 1 == 1,
        decreases sublist.len() - k,
    {
        if ((i as u64) >> sublist[k]) & 1 != 1 {
            return false;
        }
        k += 1;
    }
    true
}

/// Subtracts `coeff` (modulo `2^64`) from every entry of the signature `tt`
/// that the conjunction `sublist` placed from `index` covers.
pub fn sub_coeff(tt: &mut [u64], coeff: u64, index: usize, sublist: &[usize])
    requires
        sublist.len() >= 1,
        sublist@[0] < 63,
        forall|k: int| 0 <= k < sublist.len() ==> #[trigger] sublist@[k] < 64,
        old(tt)@.len() + 2 * pow2(sublist@[0] as nat) <= usize::MAX,
    ensures
        final(tt)@.len() == old(tt)@.len(),
        forall|i: int|
            0 <= i < old(tt)@.len() ==> #[trigger] final(tt)@[i] == if coeff_applies(i, index as int, sublist@) {
                old(tt)@[i].wrapping_sub(coeff)
            } else {
                old(tt)@[i]
            },
{
    let first = sublist[0];
    proof {
        lemma_u64_pow2_no_overflow(first as nat);
        lemma_u64_shl_is_mul(1, first as u64);
    }
    let gp_word: u64 = 1u64 << (first as u64);
    assert(gp_word == pow2(first as nat));
    let gp_size: usize = gp_word as usize;
    assert(gp_size == pow2(first as nat));
    let period = 2 * gp_size;
    let mut start = index;
    let ghost mut m: int = 0;
    while start < tt.len()
        invariant
            tt@.len() == old(tt)@.len(),
            sublist.len() >= 1,
            forall|k: int| 0 <= k < sublist.len() ==> #[trigger] sublist@[k] < 64,
            gp_size == pow2(sublist@[0] as nat),
            period == 2 * gp_size,
            gp_size >= 1,
            tt@.len() + period <= usize::MAX,
            start == index + m * period,
            m >= 0,
            forall|i: int|
                0 <= i < tt@.len() ==> #[trigger] tt@[i] == if i < start && coeff_applies(i, index as int, sublist@) {
                    old(tt)@[i].wrapping_sub(coeff)
                } else {
                    old(tt)@[i]
                },
        decreases tt@.len() + period - start,
    {
        let end = if start + gp_size < tt.len() {
            start + gp_size
        } else {
            tt.len()
        };
        let mut i = start;
        while i < end
            invariant
                tt@.len() == old(tt)@.len(),
                sublist.len() >= 1,
                forall|k: int| 0 <= k < sublist.len() ==> #[trigger] sublist@[k] < 64,
                gp_size == pow2(sublist@[0] as nat),
                period == 2 * gp_size,
                gp_size >= 1,
                start == index + m * period,
                m >= 0,
                start <= i <= end <= tt@.len(),
                end <= start + gp_size,
                forall|j: int|
                    0 <= j < tt@.len() ==> #[trigger] tt@[j] == if (j < start && coeff_applies(j, index as int, sublist@))
                        || (start <= j < i && (sublist.len() == 1 || vars_true(j, sublist@))) {
                        old(tt)@[j].wrapping_sub(coeff)
                    } else {
                        old(tt)@[j]
                    },
            decreases end - i,
        {
            if sublist.len() == 1 || are_vars_true(i, sublist) {
                tt[i] = tt[i].wrapping_sub(coeff);
            }
            i += 1;
        }
        proof {
            assert forall|j: int| 0 <= j < tt@.len() implies #[trigger] tt@[j] == if j < start + period
                && coeff_applies(j, index as int, sublist@) {
                old(tt)@[j].wrapping_sub(coeff)
            } else {
                old(tt)@[j]
            } by {
                if start <= j < start + period {
                    lemma_fundamental_div_mod_converse(j - index, period as int, m, j - start);
                }
            }
        }
        start = start + period;
        proof {
            m = m + 1;
            assert(start == index + m * period) by (nonlinear_arith)
                requires
                    start == index + (m - 1) * period + period,
            ;
        }
    }
}

/// How many of the first `m` inputs were not observed.
pub open spec fn count_free(observed: Seq<Option<bool>>, m: int) -> nat
    decreases m,
{
    if m <= 0 {
        0
    } else {
        count_free(observed, m - 1) + if observed[m - 1] is None {
            1nat
        } else {
            0nat
        }
    }
}

/// The truth table numbered `k` over the first `m` inputs: each observed
/// input keeps its output, and the unobserved ones take the bits of `k`, the
/// first unobserved input the lowest bit.
pub open spec fn table_for(observed: Seq<Option<bool>>, k: nat, m: int) -> nat
    decreases m,
{
    if m <= 0 {
        0
    } else {
        let below = table_for(observed, k, m - 1);
        match observed[m - 1] {
            Some(true) => below + pow2((m - 1) as nat),
            Some(false) => below,
            None => below + ((k / pow2(count_free(observed, m - 1))) % 2) * pow2((m - 1) as nat),
        }
    }
}

/// A table over `m` inputs is below `2^m`.
proof fn lemma_table_bound(observed: Seq<Option<bool>>, k: nat, m: int)
    requires
        m >= 0,
    ensures
        table_for(observed, k, m) < pow2(m as nat),
    decreases m,
{
    if m == 0 {
        vstd::arithmetic::power2::lemma2_to64();
    } else {
        lemma_table_bound(observed, k, m - 1);
        vstd::arithmetic::power2::lemma_pow2_unfold(m as nat);
        assert(pow2(m as nat) == 2 * pow2((m - 1) as nat));
        lemma_pow2_pos(count_free(observed, m - 1));
        let b = (k / pow2(count_free(observed, m - 1))) % 2;
        assert(b == 0 || b == 1);
        if b == 0 {
            assert(b * pow2((m - 1) as nat) == 0);
        } else {
            assert(b * pow2((m - 1) as nat) == pow2((m - 1) as nat));
        }
    }
}

/// Tables repeat with the period `2^count_free`.
proof fn lemma_table_period(observed: Seq<Option<bool>>, k: nat, j: nat, m: int)
    requires
        m >= 0,
    ensures
        table_for(observed, k + j * pow2(count_free(observed, m)), m) == table_for(observed, k, m),
    decreases m,
{
    if m > 0 {
        let c = count_free(observed, m - 1);
        let cm = count_free(observed, m);
        lemma_pow2_pos(c);
        let factor: nat = if observed[m - 1] is None {
            2
        } else {
            1
        };
        assert(pow2(cm) == factor * pow2(c)) by {
            if observed[m - 1] is None {
                vstd::arithmetic::power2::lemma_pow2_unfold(c + 1);
                assert(cm == c + 1);
                assert(pow2(c + 1) == 2 * pow2(c));
            } else {
                assert(cm == c);
            }
        }
        let j2: nat = j * factor;
        assert(j * pow2(cm) == j2 * pow2(c)) by (nonlinear_arith)
            requires
                pow2(cm) == factor * pow2(c),
                j2 == j * factor,
        ;
        lemma_table_period(observed, k, j2, m - 1);
        if observed[m - 1] is None {
            let p = pow2(c);
            let kk: nat = k + j2 * pow2(c);
            assert((kk / p) % 2 == (k / p) % 2) by {
                assert(j2 == 2 * j);
                lemma_div_step(k as int, j as int, p as int);
            }
        }
    }
}

/// Adding an even multiple of `p` keeps the parity of the quotient by `p`.
proof fn lemma_div_step(k: int, j: int, p: int)
    requires
        k >= 0,
        j >= 0,
        p > 0,
    ensures
        ((k + 2 * j * p) / p) % 2 == (k / p) % 2,
{
    let q = k / p;
    let r = k % p;
    assert(k == q * p + r && 0 <= r < p) by {
        vstd::arithmetic::div_mod::lemma_fundamental_div_mod(k, p);
    }
    assert(k + 2 * j * p == (q + 2 * j) * p + r) by (nonlinear_arith)
        requires
            k == q * p + r,
    ;
    lemma_fundamental_div_mod_converse(k + 2 * j * p, p, q + 2 * j, r);
}

/// `2^n` is positive.
proof fn lemma_pow2_pos(n: nat)
    ensures
        pow2(n) > 0,
{
    vstd::arithmetic::power2::lemma_pow2_pos(n);
}

/// Setting bit `m` of a value below `2^m` adds `2^m`.
proof fn lemma_set_bit(t: u8, m: u8)
    requires
        m < 8,
        t < pow2(m as nat),
    ensures
        t | (1u8 << m) == t + pow2(m as nat),
        (t | (1u8 << m)) as int == t + pow2(m as nat),
{
    vstd::bits::lemma_u8_pow2_no_overflow(m as nat);
    vstd::bits::lemma_u8_shl_is_mul(1, m);
    let b: u8 = 1u8 << m;
    assert(b == pow2(m as nat));
    assert(t < b ==> t | b == t + b) by (bit_vector)
        requires
            m < 8,
            b == 1u8 << m,
    ;
}

/// Every truth table that agrees with `observed`: an observed input keeps
/// its output, and each unobserved one is free. The tables come in the order
/// of their number, reading the unobserved inputs as its bits.
pub fn complete_truth_table(observed: &[Option<bool>]) -> (r: Vec<u8>)
    requires
        observed.len() <= 8,
    ensures
        r@.len() == pow2(count_free(observed@, observed.len() as int)),
        forall|k: int| 0 <= k < r@.len() ==> #[trigger] r@[k] as nat == table_for(observed@, k as nat, observed.len() as int),
{
    let mut tables: Vec<u8> = Vec::new();
    tables.push(0);
    proof {
        vstd::arithmetic::power2::lemma2_to64();
        assert(pow2(0) == 1);
    }
    let mut input: usize = 0;
    while input < observed.len()
        invariant
            input <= observed.len() <= 8,
            tables@.len() == pow2(count_free(observed@, input as int)),
            forall|k: int| 0 <= k < tables@.len() ==> #[trigger] tables@[k] as nat == table_for(
                observed@,
                k as nat,
                input as int,
            ),
        decreases observed.len() - input,
    {
        let ghost before = tables@;
        let ghost c = count_free(observed@, input as int);
        proof {
            lemma_pow2_pos(c);
        }
        match observed[input] {
            Some(true) => {
                let mut k: usize = 0;
                while k < tables.len()
                    invariant
                        input < observed.len() <= 8,
                        observed@[input as int] == Some(true),
                        tables@.len() == before.len(),
                        k <= tables@.len(),
                        forall|j: int| 0 <= j < before.len() ==> #[trigger] before[j] as nat == table_for(observed@, j as nat, input as int),
                        forall|j: int| 0 <= j < tables@.len() ==> #[trigger] tables@[j] as nat == if j < k {
                            table_for(observed@, j as nat, input + 1)
                        } else {
                            before[j] as nat
                        },
                    decreases tables@.len() - k,
                {
                    proof {
                        lemma_table_bound(observed@, k as nat, input as int);
                        lemma_set_bit(tables@[k as int], input as u8);
                    }
                    let t = tables[k] | (1u8 << (input as u8));
                    tables.set(k, t);
                    k += 1;
                }
            },
            Some(false) => {
            },
            None => {
                let n0 = tables.len();
                proof {
                    assert forall|j: int| 0 <= j < n0 implies #[trigger] tables@[j] as nat == table_for(
                        observed@,
                        j as nat,
                        input + 1,
                    ) by {
                        assert(j / (pow2(c) as int) == 0) by {
                            lemma_fundamental_div_mod_converse(j, pow2(c) as int, 0, j);
                        }
                        let ii = input as int;
                        assert(table_for(observed@, j as nat, ii + 1) == table_for(observed@, j as nat, ii) + ((
                        j as nat / pow2(count_free(observed@, ii))) % 2) * pow2(ii as nat));
                        assert(tables@[j] == before[j]);
                    }
                }
                let mut k: usize = 0;
                while k < n0
                    invariant
                        input < observed.len() <= 8,
                        observed@[input as int] is None,
                        n0 == before.len(),
                        n0 == pow2(c),
                        c == count_free(observed@, input as int),
                        tables@.len() == n0 + k,
                        k <= n0,
                        forall|j: int| 0 <= j < n0 ==> #[trigger] tables@[j] == before[j],
                        forall|j: int| 0 <= j < n0 ==> #[trigger] before[j] as nat == table_for(observed@, j as nat, input as int),
                        forall|j: int| 0 <= j < tables@.len() ==> #[trigger] tables@[j] as nat == table_for(
                            observed@,
                            j as nat,
                            input + 1,
                        ),
                    decreases n0 - k,
                {
                    proof {
                        lemma_table_bound(observed@, k as nat, input as int);
                        lemma_set_bit(before[k as int], input as u8);
                        lemma_table_period(observed@, k as nat, 1, input as int);
                        let kk = (n0 + k) as nat;
                        assert(kk / pow2(c) == 1) by {
                            lemma_fundamental_div_mod_converse(kk as int, pow2(c) as int, 1, k as int);
                        }
                        assert(k as nat + 1 * pow2(c) == kk);
                        assert(table_for(observed@, kk, input as int) == table_for(observed@, k as nat, input as int));
                        assert((k as nat / pow2(c)) == 0) by {
                            lemma_fundamental_div_mod_converse(k as int, pow2(c) as int, 0, k as int);
                        }
                        assert(tables@[k as int] == before[k as int]);
                        let ii = input as int;
                        assert(table_for(observed@, kk, ii + 1) == table_for(observed@, kk, ii) + ((kk / pow2(
                            count_free(observed@, ii),
                        )) % 2) * pow2(ii as nat));
                    }
                    let t = tables[k] | (1u8 << (input as u8));
                    assert(t as nat == table_for(observed@, (n0 + k) as nat, input + 1));
                    let ghost mid = tables@;
                    tables.push(t);
                    assert forall|j: int| 0 <= j < tables@.len() implies #[trigger] tables@[j] as nat == table_for(
                        observed@,
                        j as nat,
                        input + 1,
                    ) by {
                        if j < mid.len() {
                            assert(tables@[j] == mid[j]);
                        }
                    }
                    k += 1;
                }
                proof {
                    vstd::arithmetic::power2::lemma_pow2_unfold(c + 1);
                }
            },
        }
        input += 1;
    }
    tables
}

/// Bit `b` of the word `w`.
pub open spec fn bit_of(w: u64, b: int) -> int {
    ((w >> (b as u64)) & 1) as int
}

/// The input the parents give at position (`sample`, `bit`): bit `bit` of
/// the `k`-th parent's sample is bit `k` of the input.
pub open spec fn input_of(parents: Seq<&[u64]>, sample: int, bit: int, k: int) -> nat
    decreases k,
{
    if k <= 0 {
        0
    } else {
        (input_of(parents, sample, bit, k - 1) + bit_of(parents[k - 1]@[sample], bit) * pow2((k - 1) as nat)) as nat
    }
}

/// The input the parents give at position (`sample`, `bit`).
pub open spec fn input_at(parents: Seq<&[u64]>, sample: int, bit: int) -> nat {
    input_of(parents, sample, bit, parents.len() as int)
}

/// The output of the target at position (`sample`, `bit`).
pub open spec fn output_at(target: Seq<u64>, sample: int, bit: int) -> bool {
    bit_of(target[sample], bit) == 1
}

/// Positions with equal inputs have equal outputs.
pub open spec fn observations_agree(target: Seq<u64>, parents: Seq<&[u64]>, n: int) -> bool {
    forall|s1: int, b1: int, s2: int, b2: int|
        0 <= s1 < target.len() && 0 <= b1 < n && 0 <= s2 < target.len() && 0 <= b2 < n && #[trigger] input_at(
            parents,
            s1,
            b1,
        ) == #[trigger] input_at(parents, s2, b2) ==> output_at(target, s1, b1) == output_at(target, s2, b2)
}

/// `observed` records, for each input, the output seen with it, and nothing
/// for an input never seen.
pub open spec fn observation_table(
    target: Seq<u64>,
    parents: Seq<&[u64]>,
    n: int,
    observed: Seq<Option<bool>>,
) -> bool {
    &&& observed.len() == pow2(parents.len() as nat)
    &&& forall|i: int|
        0 <= i < observed.len() ==> (#[trigger] observed[i] is Some <==> exists|s: int, b: int|
            0 <= s < target.len() && 0 <= b < n && #[trigger] input_at(parents, s, b) == i)
    &&& forall|s: int, b: int|
        0 <= s < target.len() && 0 <= b < n ==> observed[#[trigger] input_at(parents, s, b) as int] == Some(
            output_at(target, s, b),
        )
}

/// Setting bit `i` to `b` of a value below `2^i` adds `b * 2^i`.
proof fn lemma_set_usize_bit(x: usize, b: usize, i: usize)
    requires
        i < 8,
        b <= 1,
        x < pow2(i as nat),
    ensures
        (x | (b << i)) as int == x + b * pow2(i as nat),
        x + b * pow2(i as nat) < pow2((i + 1) as nat),
{
    vstd::arithmetic::power2::lemma2_to64();
    vstd::arithmetic::power2::lemma_pow2_unfold((i + 1) as nat);
    let p: usize = 1usize << i;
    assert(p as int == pow2(i as nat)) by {
        assert(i == 0 ==> 1usize << i == 1usize) by (bit_vector);
        assert(i == 1 ==> 1usize << i == 2usize) by (bit_vector);
        assert(i == 2 ==> 1usize << i == 4usize) by (bit_vector);
        assert(i == 3 ==> 1usize << i == 8usize) by (bit_vector);
        assert(i == 4 ==> 1usize << i == 16usize) by (bit_vector);
        assert(i == 5 ==> 1usize << i == 32usize) by (bit_vector);
        assert(i == 6 ==> 1usize << i == 64usize) by (bit_vector);
        assert(i == 7 ==> 1usize << i == 128usize) by (bit_vector);
    }
    assert(x < p && b <= 1 ==> (x | (b << i)) == x + b * p) by (bit_vector)
        requires
            i < 8,
            p == 1usize << i,
    ;
    if b == 0 {
        assert(b * pow2(i as nat) == 0);
    } else {
        assert(b * pow2(i as nat) == pow2(i as nat));
    }
}

/// An input made of `k` bits is below `2^k`.
proof fn lemma_input_bound(parents: Seq<&[u64]>, sample: int, bit: int, k: int)
    requires
        0 <= bit < 64,
        k >= 0,
    ensures
        input_of(parents, sample, bit, k) < pow2(k as nat),
    decreases k,
{
    if k == 0 {
        vstd::arithmetic::power2::lemma2_to64();
    } else {
        lemma_input_bound(parents, sample, bit, k - 1);
        vstd::arithmetic::power2::lemma_pow2_unfold(k as nat);
        lemma_bit_at_most_one(parents[k - 1]@[sample], bit as u64);
        let w = parents[k - 1]@[sample];
        let b = bit_of(w, bit);
        assert(((w >> (bit as u64)) & 1) <= 1);
        assert(0 <= b <= 1);
        if b == 0 {
            assert(b * pow2((k - 1) as nat) == 0);
        } else {
            assert(b == 1);
            assert(b * pow2((k - 1) as nat) == pow2((k - 1) as nat));
        }
    }
}

/// A bit is 0 or 1.
proof fn lemma_bit_at_most_one(w: u64, b: u64)
    ensures
        (w >> b) & 1 <= 1,
{
    assert((w >> b) & 1 <= 1) by (bit_vector);
}

/// The input the parents give at (`sample`, `bit`).
fn input_from(parents: &[&[u64]], sample: usize, bit: u8) -> (r: usize)
    requires
        parents.len() <= 3,
        bit < 64,
        forall|k: int| 0 <= k < parents.len() ==> sample < (#[trigger] parents@[k])@.len(),
    ensures
        r as nat == input_at(parents@, sample as int, bit as int),
        r < pow2(parents.len() as nat),
{
    let mut input: usize = 0;
    let mut index: usize = 0;
    proof {
        vstd::arithmetic::power2::lemma2_to64();
    }
    while index < parents.len()
        invariant
            index <= parents.len() <= 3,
            bit < 64,
            forall|k: int| 0 <= k < parents.len() ==> sample < (#[trigger] parents@[k])@.len(),
            input as nat == input_of(parents@, sample as int, bit as int, index as int),
            input < pow2(index as nat),
        decreases parents.len() - index,
    {
        let parent = parents[index];
        let b = ((parent[sample] >> (bit as u64)) & 1) as usize;
        proof {
            lemma_bit_at_most_one(parent@[sample as int], bit as u64);
            lemma_set_usize_bit(input, b, index);
        }
        input = input | (b << index);
        index += 1;
    }
    input
}

/// The truth tables over the parents' bits that produce the target's bits:
/// every position (`sample`, `bit`) below `n` gives one observation, an
/// input made of the parents' bits and an output, the target's bit. When two
/// observations of one input disagree there is none; otherwise the tables
/// are those `complete_truth_table` gives for the observed outputs.
pub fn infer_bitwise_truth_tables(target: &[u64], parents: &[&[u64]], n: u8) -> (r: Vec<u8>)
    requires
        parents.len() <= 3,
        n <= 64,
        forall|k: int| 0 <= k < parents.len() ==> target.len() <= (#[trigger] parents@[k])@.len(),
    ensures
        !observations_agree(target@, parents@, n as int) ==> r@.len() == 0,
        observations_agree(target@, parents@, n as int) ==> exists|observed: Seq<Option<bool>>|
            observation_table(target@, parents@, n as int, observed) && r@.len() == pow2(
                count_free(observed, observed.len() as int),
            ) && forall|k: int| 0 <= k < r@.len() ==> #[trigger] r@[k] as nat == table_for(observed, k as nat, observed.len() as int),
{
    proof {
        vstd::arithmetic::power2::lemma2_to64();
    }
    let input_count: usize = if parents.len() == 0 {
        1
    } else if parents.len() == 1 {
        2
    } else if parents.len() == 2 {
        4
    } else {
        8
    };
    assert(input_count == pow2(parents.len() as nat));
    let mut observed: Vec<Option<bool>> = Vec::new();
    let mut i: usize = 0;
    while i < input_count
        invariant
            i <= input_count,
            observed@ == Seq::new(i as nat, |j: int| None::<bool>),
        decreases input_count - i,
    {
        observed.push(None);
        i += 1;
        assert(observed@ =~= Seq::new(i as nat, |j: int| None::<bool>));
    }
    let mut sample: usize = 0;
    while sample < target.len()
        invariant
            parents.len() <= 3,
            n <= 64,
            input_count == pow2(parents.len() as nat),
            forall|k: int| 0 <= k < parents.len() ==> target.len() <= (#[trigger] parents@[k])@.len(),
            sample <= target.len(),
            observed@.len() == input_count,
            forall|i: int|
                0 <= i < observed@.len() ==> (#[trigger] observed@[i] is Some <==> exists|s: int, b: int|
                    0 <= s < sample && 0 <= b < n && #[trigger] input_at(parents@, s, b) == i),
            forall|s: int, b: int|
                0 <= s < sample && 0 <= b < n ==> observed@[#[trigger] input_at(parents@, s, b) as int] == Some(
                    output_at(target@, s, b),
                ),
        decreases target.len() - sample,
    {
        let mut bit: u8 = 0;
        while bit < n
            invariant
                parents.len() <= 3,
                n <= 64,
                input_count == pow2(parents.len() as nat),
                forall|k: int| 0 <= k < parents.len() ==> target.len() <= (#[trigger] parents@[k])@.len(),
                sample < target.len(),
                bit <= n,
                observed@.len() == input_count,
                forall|i: int|
                    0 <= i < observed@.len() ==> (#[trigger] observed@[i] is Some <==> exists|s: int, b: int|
                        ((0 <= s < sample && 0 <= b < n) || (s == sample && 0 <= b < bit)) && #[trigger] input_at(
                            parents@,
                            s,
                            b,
                        ) == i),
                forall|s: int, b: int|
                    ((0 <= s < sample && 0 <= b < n) || (s == sample && 0 <= b < bit)) ==> observed@[#[trigger] input_at(
                        parents@,
                        s,
                        b,
                    ) as int] == Some(output_at(target@, s, b)),
            decreases n - bit,
        {
            let input = input_from(parents, sample, bit);
            let output = ((target[sample] >> (bit as u64)) & 1) != 0;
            proof {
                lemma_bit_at_most_one(target@[sample as int], bit as u64);
            }
            assert(output == output_at(target@, sample as int, bit as int));
            match observed[input] {
                Some(previous) => {
                    if previous != output {
                        proof {
                            let (s, b) = choose|s: int, b: int|
                                ((0 <= s < sample && 0 <= b < n) || (s == sample && 0 <= b < bit)) && #[trigger] input_at(
                                    parents@,
                                    s,
                                    b,
                                ) == input as int;
                            assert(observed@[input_at(parents@, s, b) as int] == Some(output_at(target@, s, b)));
                            assert(input_at(parents@, s, b) == input_at(parents@, sample as int, bit as int));
                        }
                        return Vec::new();
                    }
                    proof {
                        assert(observed@[input_at(parents@, sample as int, bit as int) as int] == Some(
                            output_at(target@, sample as int, bit as int),
                        ));
                    }
                },
                None => {
                    let ghost old_observed = observed@;
                    observed.set(input, Some(output));
                    proof {
                        assert forall|s: int, b: int|
                            ((0 <= s < sample && 0 <= b < n) || (s == sample && 0 <= b < bit + 1)) implies observed@[#[trigger] input_at(
                                parents@,
                                s,
                                b,
                            ) as int] == Some(output_at(target@, s, b)) by {
                            if s == sample && b == bit {
                            } else if input_at(parents@, s, b) == input as int {
                                assert(old_observed[input as int] is Some);
                            } else {
                                lemma_input_bound(parents@, s, b, parents@.len() as int);
                                assert(observed@[input_at(parents@, s, b) as int] == old_observed[input_at(
                                    parents@,
                                    s,
                                    b,
                                ) as int]);
                            }
                        }
                        assert forall|i: int|
                            0 <= i < observed@.len() implies (#[trigger] observed@[i] is Some <==> exists|s: int, b: int|
                                ((0 <= s < sample && 0 <= b < n) || (s == sample && 0 <= b < bit + 1)) && #[trigger] input_at(
                                    parents@,
                                    s,
                                    b,
                                ) == i) by {
                            if i == input as int {
                                assert(input_at(parents@, sample as int, bit as int) == i);
                            } else {
                                assert(observed@[i] == old_observed[i]);
                                if observed@[i] is Some {
                                } else {
                                    assert forall|s: int, b: int|
                                        ((0 <= s < sample && 0 <= b < n) || (s == sample && 0 <= b < bit + 1)) implies #[trigger] input_at(
                                            parents@,
                                            s,
                                            b,
                                        ) != i by {
                                        if s == sample && b == bit {
                                        } else {
                                            assert(!(input_at(parents@, s, b) == i && ((0 <= s < sample && 0 <= b < n) || (s
                                                == sample && 0 <= b < bit))));
                                        }
                                    }
                                }
                            }
                        }
                    }
                },
            }
            bit += 1;
        }
        sample += 1;
    }
    let tables = complete_truth_table(&observed);
    proof {
        assert(observations_agree(target@, parents@, n as int)) by {
            assert forall|s1: int, b1: int, s2: int, b2: int|
                0 <= s1 < target.len() && 0 <= b1 < n && 0 <= s2 < target.len() && 0 <= b2 < n && #[trigger] input_at(
                    parents@,
                    s1,
                    b1,
                ) == #[trigger] input_at(parents@, s2, b2) implies output_at(target@, s1, b1) == output_at(
                target@,
                s2,
                b2,
            ) by {
                assert(observed@[input_at(parents@, s1, b1) as int] == Some(output_at(target@, s1, b1)));
                assert(observed@[input_at(parents@, s2, b2) as int] == Some(output_at(target@, s2, b2)));
            }
        }
        assert(observation_table(target@, parents@, n as int, observed@));
    }
    tables
}

} // verus!
