//! Factorized sections: an integer-valued function of two variables is
//! described digit by digit, as a graph of bases read two bits (one of each
//! variable) at a time. A base holds the contribution `epsilon` of each input
//! symbol and the base `tau` that reads the next digit.
use vstd::prelude::*;
use vstd::set_lib::{lemma_len_subset, lemma_int_range, set_int_range};
use crate::numbering::{canon, lemma_distinct_below};
use crate::section_value::{children_total, graph_total, int_bit, lemma_bitwise_total, lemma_product_total};
use crate::partition::{
    class_representatives, equivalent, graph_shape, is_word, lemma_search_closed, lemma_stable_successor, reached,
    lemma_word_push, run, search_classes, search_facts, search_walk, stable, stable_classes, target_id,
    transitions_in,
};

verus! {

/// Why a factorized section could not be built or certified.
#[derive(Clone, Copy, Debug, PartialEq, Eq)]
pub enum FactorizedSectionRefusal {
    InvalidWidth,
    InvalidVariables,
    SourceBudgetExceeded,
    UnsupportedNode,
    UnsupportedMultiplication,
    ArithmeticOverflow,
    InternalGaugeViolation,
    MultipleSemanticBases,
    CandidateMismatch,
}

/// One state of a section graph.
#[derive(Clone, Copy, Debug, PartialEq, Eq)]
pub struct Base {
    /// The contribution of the symbols 1, 2 and 3 (symbol 0 contributes 0).
    pub epsilon_nonzero: [i128; 3],
    /// The next base for each symbol.
    pub tau: [usize; 4],
}

/// The contribution of `symbol` in base `b`.
pub open spec fn epsilon_of(b: Base, symbol: int) -> int {
    if symbol == 0 {
        0
    } else {
        b.epsilon_nonzero@[symbol - 1] as int
    }
}

impl Base {
    /// The contribution of `symbol` (one of 0, 1, 2, 3).
    pub fn epsilon(&self, symbol: usize) -> (r: i128)
        requires
            symbol < 4,
        ensures
            r == epsilon_of(*self, symbol as int),
    {
        if symbol == 0 {
            0
        } else {
            self.epsilon_nonzero[symbol - 1]
        }
    }
}

/// The base that contributes nothing and stays in place.
pub open spec fn zero_base() -> Base {
    Base { epsilon_nonzero: [0i128, 0i128, 0i128], tau: [0usize, 0usize, 0usize, 0usize] }
}

/// A section graph: its bases, the base that reads the lowest digit, and the
/// constant offset.
#[derive(Clone, Debug, PartialEq, Eq)]
pub struct BaseGraph {
    pub bases: Vec<Base>,
    pub root: usize,
    pub r0: i128,
}

/// Every transition of `bases` stays among them.
pub open spec fn bases_closed(bases: Seq<Base>) -> bool {
    forall|i: int, s: int| 0 <= i < bases.len() && 0 <= s < 4 ==> #[trigger] bases[i].tau@[s]
        < bases.len()
}

/// `g` has a root base and is closed under its transitions.
pub open spec fn graph_wf(g: BaseGraph) -> bool {
    &&& g.root < g.bases@.len()
    &&& bases_closed(g.bases@)
}

/// A reading position: the base to read the next digit with, and the carry
/// accumulated so far.
#[derive(Clone, Copy, Debug, PartialEq, Eq)]
pub struct DigitCursor {
    pub base: usize,
    pub carry: i128,
}

/// The result of reading one symbol: the output bit and the next cursor.
pub open spec fn advance_spec(g: BaseGraph, cursor: DigitCursor, symbol: int) -> Result<
    (u8, DigitCursor),
    FactorizedSectionRefusal,
> {
    if cursor.base >= g.bases@.len() {
        Err(FactorizedSectionRefusal::UnsupportedNode)
    } else {
        let b = g.bases@[cursor.base as int];
        let total = cursor.carry + epsilon_of(b, symbol);
        if total < i128::MIN || total > i128::MAX {
            Err(FactorizedSectionRefusal::ArithmeticOverflow)
        } else {
            Ok(((total % 2) as u8, DigitCursor { base: b.tau@[symbol], carry: (total / 2) as i128 }))
        }
    }
}

/// Reads `symbol` from `cursor`: the base contributes its epsilon to the
/// carry, the low bit of the total is output and the rest is carried on.
pub fn advance_digit(graph: &BaseGraph, cursor: DigitCursor, symbol: usize) -> (r: Result<
    (u8, DigitCursor),
    FactorizedSectionRefusal,
>)
    requires
        symbol < 4,
    ensures
        r == advance_spec(*graph, cursor, symbol as int),
{
    if cursor.base >= graph.bases.len() {
        return Err(FactorizedSectionRefusal::UnsupportedNode);
    }
    let base = &graph.bases[cursor.base];
    let total = match cursor.carry.checked_add(base.epsilon(symbol)) {
        Some(t) => t,
        None => {
            return Err(FactorizedSectionRefusal::ArithmeticOverflow);
        },
    };
    let carry = match total.checked_div_euclid(2) {
        Some(c) => c,
        None => {
            return Err(FactorizedSectionRefusal::ArithmeticOverflow);
        },
    };
    let output = (total - 2 * carry) as u8;
    Ok((output, DigitCursor { base: base.tau[symbol], carry }))
}

/// The three bitwise operations a section graph can combine.
#[derive(Clone, Copy, Debug, PartialEq, Eq)]
pub enum BitwiseOperation {
    And,
    Or,
    Xor,
}

/// `op` folded over `bits`, starting from its neutral element.
pub open spec fn fold_bits(op: BitwiseOperation, bits: Seq<u8>) -> u8
    decreases bits.len(),
{
    if bits.len() == 0 {
        match op {
            BitwiseOperation::And => 1,
            _ => 0,
        }
    } else {
        let acc = fold_bits(op, bits.drop_last());
        match op {
            BitwiseOperation::And => acc & bits.last(),
            BitwiseOperation::Or => acc | bits.last(),
            BitwiseOperation::Xor => acc ^ bits.last(),
        }
    }
}

/// `op` folded over the carries of `state`, starting from its neutral element.
pub open spec fn fold_carries(op: BitwiseOperation, state: Seq<DigitCursor>) -> i128
    decreases state.len(),
{
    if state.len() == 0 {
        match op {
            BitwiseOperation::And => -1i128,
            _ => 0i128,
        }
    } else {
        let acc = fold_carries(op, state.drop_last());
        let c = state.last().carry;
        match op {
            BitwiseOperation::And => acc & c,
            BitwiseOperation::Or => acc | c,
            BitwiseOperation::Xor => acc ^ c,
        }
    }
}

impl BitwiseOperation {
    /// The operation folded over `bits`.
    pub fn apply(self, bits: &[u8]) -> (r: Result<u8, FactorizedSectionRefusal>)
        ensures
            r == Ok::<u8, FactorizedSectionRefusal>(fold_bits(self, bits@)),
    {
        let mut acc: u8 = match self {
            BitwiseOperation::And => 1,
            _ => 0,
        };
        let mut i: usize = 0;
        while i < bits.len()
            invariant
                i <= bits.len(),
                acc == fold_bits(self, bits@.take(i as int)),
            decreases bits.len() - i,
        {
            assert(bits@.take(i + 1).drop_last() =~= bits@.take(i as int));
            acc = match self {
                BitwiseOperation::And => acc & bits[i],
                BitwiseOperation::Or => acc | bits[i],
                BitwiseOperation::Xor => acc ^ bits[i],
            };
            i += 1;
        }
        assert(bits@.take(i as int) =~= bits@);
        Ok(acc)
    }
}

/// The operation folded over the carries of `state`.
pub fn state_response(operation: BitwiseOperation, state: &[DigitCursor]) -> (r: i128)
    ensures
        r == fold_carries(operation, state@),
{
    let mut acc: i128 = match operation {
        BitwiseOperation::And => -1,
        _ => 0,
    };
    let mut i: usize = 0;
    while i < state.len()
        invariant
            i <= state.len(),
            acc == fold_carries(operation, state@.take(i as int)),
        decreases state.len() - i,
    {
        assert(state@.take(i + 1).drop_last() =~= state@.take(i as int));
        let c = state[i].carry;
        acc = match operation {
            BitwiseOperation::And => acc & c,
            BitwiseOperation::Or => acc | c,
            BitwiseOperation::Xor => acc ^ c,
        };
        i += 1;
    }
    assert(state@.take(i as int) =~= state@);
    acc
}

/// `x` fits in an `i128`.
pub open spec fn fits_i128(x: int) -> bool {
    i128::MIN <= x <= i128::MAX
}

/// Every epsilon of `bases` times `c` fits in an `i128`.
pub open spec fn epsilons_scale_fit(bases: Seq<Base>, c: int) -> bool {
    forall|i: int, j: int| 0 <= i < bases.len() && 0 <= j < 3 ==> fits_i128(
        #[trigger] bases[i].epsilon_nonzero@[j] * c,
    )
}

/// `g` with every epsilon multiplied by `c`.
pub open spec fn scaled_bases(bases: Seq<Base>, c: int) -> Seq<Base> {
    Seq::new(
        bases.len(),
        |i: int|
            Base {
                epsilon_nonzero: [
                    (bases[i].epsilon_nonzero@[0] * c) as i128,
                    (bases[i].epsilon_nonzero@[1] * c) as i128,
                    (bases[i].epsilon_nonzero@[2] * c) as i128,
                ],
                tau: bases[i].tau,
            },
    )
}

/// What scaling `graph` by `coefficient` gives: for zero the zero graph;
/// else every constant and contribution multiplied, or a refusal exactly
/// when one of them leaves `i128`.
pub open spec fn scale_outcome(graph: BaseGraph, coefficient: int, r: Result<BaseGraph, FactorizedSectionRefusal>) -> bool {
    &&& coefficient == 0 ==> (r matches Ok(g) && g.root == 0 && g.r0 == 0 && g.bases@ == seq![zero_base()])
    &&& coefficient != 0 ==> match r {
        Ok(g) => fits_i128(graph.r0 * coefficient) && epsilons_scale_fit(graph.bases@, coefficient)
            && g.r0 == graph.r0 * coefficient && g.root == graph.root
            && g.bases@ == scaled_bases(graph.bases@, coefficient),
        Err(e) => e == FactorizedSectionRefusal::ArithmeticOverflow && !(fits_i128(graph.r0 * coefficient)
            && epsilons_scale_fit(graph.bases@, coefficient)),
    }
}

/// The graph of `coefficient` times the section of `graph`.
pub fn scale_graph(graph: BaseGraph, coefficient: i128) -> (r: Result<BaseGraph, FactorizedSectionRefusal>)
    ensures
        scale_outcome(graph, coefficient as int, r),
{
    if coefficient == 0 {
        let bases = vec![Base { epsilon_nonzero: [0, 0, 0], tau: [0, 0, 0, 0] }];
        assert(bases@ =~= seq![zero_base()]);
        return Ok(BaseGraph { bases, root: 0, r0: 0 });
    }
    let mut g = BaseGraph { bases: graph.bases, root: graph.root, r0: graph.r0 };
    let r0 = match g.r0.checked_mul(coefficient) {
        Some(v) => v,
        None => {
            return Err(FactorizedSectionRefusal::ArithmeticOverflow);
        },
    };
    g.r0 = r0;
    let ghost orig = g.bases@;
    let mut i: usize = 0;
    while i < g.bases.len()
        invariant
            i <= g.bases.len() == orig.len(),
            orig == graph.bases@,
            g.root == graph.root,
            g.r0 == r0,
            epsilons_scale_fit(orig.take(i as int), coefficient as int),
            forall|k: int| i <= k < orig.len() ==> #[trigger] g.bases@[k] == orig[k],
            forall|k: int| 0 <= k < i ==> #[trigger] g.bases@[k] == scaled_bases(orig, coefficient as int)[k],
        decreases g.bases.len() - i,
    {
        let b = g.bases[i];
        let m0 = b.epsilon_nonzero[0].checked_mul(coefficient);
        let m1 = b.epsilon_nonzero[1].checked_mul(coefficient);
        let m2 = b.epsilon_nonzero[2].checked_mul(coefficient);
        if m0.is_none() || m1.is_none() || m2.is_none() {
            proof {
                let e = orig[i as int].epsilon_nonzero@;
                assert(!epsilons_scale_fit(orig, coefficient as int)) by {
                    if m0.is_none() {
                        assert(!fits_i128(orig[i as int].epsilon_nonzero@[0] * coefficient));
                    } else if m1.is_none() {
                        assert(!fits_i128(orig[i as int].epsilon_nonzero@[1] * coefficient));
                    } else {
                        assert(!fits_i128(orig[i as int].epsilon_nonzero@[2] * coefficient));
                    }
                }
            }
            return Err(FactorizedSectionRefusal::ArithmeticOverflow);
        }
        let nb = Base { epsilon_nonzero: [m0.unwrap(), m1.unwrap(), m2.unwrap()], tau: b.tau };
        g.bases.set(i, nb);
        proof {
            assert(nb == scaled_bases(orig, coefficient as int)[i as int]);
            assert forall|k: int, l: int| 0 <= k < orig.take(i + 1).len() && 0 <= l < 3 implies fits_i128(
                #[trigger] orig.take(i + 1)[k].epsilon_nonzero@[l] * coefficient,
            ) by {
                if k < i {
                    assert(orig.take(i + 1)[k] == orig.take(i as int)[k]);
                } else {
                    assert(orig.take(i + 1)[k] == orig[i as int]);
                }
            }
        }
        i += 1;
    }
    assert(g.bases@ =~= scaled_bases(orig, coefficient as int));
    assert(orig.take(i as int) =~= orig);
    Ok(g)
}


/// Every epsilon of `bases` can be negated in an `i128`.
pub open spec fn epsilons_negate_fit(bases: Seq<Base>) -> bool {
    forall|i: int, j: int| 0 <= i < bases.len() && 0 <= j < 3 ==> fits_i128(
        -(#[trigger] bases[i].epsilon_nonzero@[j]),
    )
}

/// `bases` with every epsilon negated.
pub open spec fn negated_bases(bases: Seq<Base>) -> Seq<Base> {
    Seq::new(
        bases.len(),
        |i: int|
            Base {
                epsilon_nonzero: [
                    (-bases[i].epsilon_nonzero@[0]) as i128,
                    (-bases[i].epsilon_nonzero@[1]) as i128,
                    (-bases[i].epsilon_nonzero@[2]) as i128,
                ],
                tau: bases[i].tau,
            },
    )
}

/// The graph of the bitwise complement `-1 - f` of the section `f` of `graph`.
/// What complementing `graph` gives: the constant `-1 - r0` and every
/// contribution negated, or a refusal exactly when one of them leaves
/// `i128`.
pub open spec fn negate_outcome(graph: BaseGraph, r: Result<BaseGraph, FactorizedSectionRefusal>) -> bool {
    match r {
        Ok(g) => fits_i128(-1 - graph.r0) && epsilons_negate_fit(graph.bases@) && g.r0 == -1 - graph.r0
            && g.root == graph.root && g.bases@ == negated_bases(graph.bases@),
        Err(e) => e == FactorizedSectionRefusal::ArithmeticOverflow && !(fits_i128(-1 - graph.r0)
            && epsilons_negate_fit(graph.bases@)),
    }
}

pub fn negate_graph(graph: BaseGraph) -> (r: Result<BaseGraph, FactorizedSectionRefusal>)
    ensures
        negate_outcome(graph, r),
{
    let mut g = BaseGraph { bases: graph.bases, root: graph.root, r0: graph.r0 };
    let r0 = match (-1i128).checked_sub(g.r0) {
        Some(v) => v,
        None => {
            return Err(FactorizedSectionRefusal::ArithmeticOverflow);
        },
    };
    g.r0 = r0;
    let ghost orig = g.bases@;
    let mut i: usize = 0;
    while i < g.bases.len()
        invariant
            i <= g.bases.len() == orig.len(),
            orig == graph.bases@,
            g.root == graph.root,
            g.r0 == r0,
            epsilons_negate_fit(orig.take(i as int)),
            forall|k: int| i <= k < orig.len() ==> #[trigger] g.bases@[k] == orig[k],
            forall|k: int| 0 <= k < i ==> #[trigger] g.bases@[k] == negated_bases(orig)[k],
        decreases g.bases.len() - i,
    {
        let b = g.bases[i];
        let m0 = 0i128.checked_sub(b.epsilon_nonzero[0]);
        let m1 = 0i128.checked_sub(b.epsilon_nonzero[1]);
        let m2 = 0i128.checked_sub(b.epsilon_nonzero[2]);
        if m0.is_none() || m1.is_none() || m2.is_none() {
            proof {
                assert(!epsilons_negate_fit(orig)) by {
                    if m0.is_none() {
                        assert(!fits_i128(-orig[i as int].epsilon_nonzero@[0]));
                    } else if m1.is_none() {
                        assert(!fits_i128(-orig[i as int].epsilon_nonzero@[1]));
                    } else {
                        assert(!fits_i128(-orig[i as int].epsilon_nonzero@[2]));
                    }
                }
            }
            return Err(FactorizedSectionRefusal::ArithmeticOverflow);
        }
        let nb = Base { epsilon_nonzero: [m0.unwrap(), m1.unwrap(), m2.unwrap()], tau: b.tau };
        g.bases.set(i, nb);
        proof {
            assert(nb == negated_bases(orig)[i as int]);
            assert forall|k: int, l: int| 0 <= k < orig.take(i + 1).len() && 0 <= l < 3 implies fits_i128(
                -(#[trigger] orig.take(i + 1)[k].epsilon_nonzero@[l]),
            ) by {
                if k < i {
                    assert(orig.take(i + 1)[k] == orig.take(i as int)[k]);
                } else {
                    assert(orig.take(i + 1)[k] == orig[i as int]);
                }
            }
        }
        i += 1;
    }
    assert(g.bases@ =~= negated_bases(orig));
    assert(orig.take(i as int) =~= orig);
    Ok(g)
}

/// The value of a graph word: `value` read as a signed 64-bit integer.
pub open spec fn signed_word_spec(value: u64) -> int {
    if value < 0x8000_0000_0000_0000 {
        value as int
    } else {
        value as int - 0x1_0000_0000_0000_0000
    }
}

/// `value` read as a signed 64-bit integer.
pub fn signed_word(value: u64) -> (r: i128)
    ensures
        r == signed_word_spec(value),
{
    if value < 0x8000_0000_0000_0000 {
        value as i128
    } else {
        value as i128 - 0x1_0000_0000_0000_0000
    }
}

/// The budget of exact operations a linear certification may spend.
#[derive(Clone, Copy, Debug)]
pub struct LinearAddBudget {
    pub max_dimension: usize,
    pub max_basis_vectors: usize,
    pub max_exact_operations: usize,
    pub exact_operations: usize,
}

impl LinearAddBudget {
    /// A fresh budget with the default limits.
    pub fn new() -> (r: Self)
        ensures
            r.max_dimension == 512,
            r.max_basis_vectors == 512,
            r.max_exact_operations == 50_000_000,
            r.exact_operations == 0,
    {
        Self {
            max_dimension: 512,
            max_basis_vectors: 512,
            max_exact_operations: 50_000_000,
            exact_operations: 0,
        }
    }

    /// Spends `operations` more; refused once the total passes the limit.
    pub fn charge(&mut self, operations: usize) -> (r: Result<(), FactorizedSectionRefusal>)
        ensures
            final(self).max_dimension == old(self).max_dimension,
            final(self).max_basis_vectors == old(self).max_basis_vectors,
            final(self).max_exact_operations == old(self).max_exact_operations,
            old(self).exact_operations + operations > usize::MAX ==> r == Err::<(), FactorizedSectionRefusal>(
                FactorizedSectionRefusal::SourceBudgetExceeded,
            ) && final(self).exact_operations == old(self).exact_operations,
            old(self).exact_operations + operations <= usize::MAX ==> final(self).exact_operations
                == old(self).exact_operations + operations && (r is Ok <==> final(self).exact_operations
                <= old(self).max_exact_operations) && (r is Err ==> r == Err::<(), FactorizedSectionRefusal>(
                FactorizedSectionRefusal::SourceBudgetExceeded,
            )),
    {
        match self.exact_operations.checked_add(operations) {
            Some(v) => {
                self.exact_operations = v;
            },
            None => {
                return Err(FactorizedSectionRefusal::SourceBudgetExceeded);
            },
        }
        if self.exact_operations > self.max_exact_operations {
            return Err(FactorizedSectionRefusal::SourceBudgetExceeded);
        }
        Ok(())
    }
}

/// The greatest common divisor, by Euclid's algorithm.
pub open spec fn gcd(a: nat, b: nat) -> nat
    decreases b,
{
    if b == 0 {
        a
    } else {
        gcd(b, a % b)
    }
}

/// An exact rational number with a positive denominator.
#[derive(Clone, Copy, Debug, PartialEq, Eq)]
pub struct Rational {
    pub numerator: i128,
    pub denominator: i128,
}

/// `x` divided by `d`, rounding toward zero.
pub open spec fn div_trunc(x: int, d: int) -> int
    recommends
        d > 0,
{
    if x >= 0 {
        x / d
    } else {
        -((-x) / d)
    }
}

/// The reduced form of `n / d`, or why it cannot be represented.
pub open spec fn rational_spec(n: int, d: int) -> Result<Rational, FactorizedSectionRefusal> {
    if d == 0 {
        Err(FactorizedSectionRefusal::ArithmeticOverflow)
    } else {
        let (n2, d2) = if d < 0 { (-n, -d) } else { (n, d) };
        if !fits_i128(n2) || !fits_i128(d2) || !fits_i128(if n2 < 0 { -n2 } else { n2 }) {
            Err(FactorizedSectionRefusal::ArithmeticOverflow)
        } else {
            let g = gcd((if n2 < 0 { -n2 } else { n2 }) as nat, d2 as nat);
            let g1 = if g == 0 { 1 } else { g as int };
            Ok(Rational { numerator: div_trunc(n2, g1) as i128, denominator: div_trunc(d2, g1) as i128 })
        }
    }
}

impl Rational {
    /// The reduced fraction `numerator / denominator`.
    pub fn new(numerator: i128, denominator: i128) -> (r: Result<Self, FactorizedSectionRefusal>)
        ensures
            r == rational_spec(numerator as int, denominator as int),
    {
        let mut numerator = numerator;
        let mut denominator = denominator;
        if denominator == 0 {
            return Err(FactorizedSectionRefusal::ArithmeticOverflow);
        }
        if denominator < 0 {
            numerator = match 0i128.checked_sub(numerator) {
                Some(v) => v,
                None => {
                    return Err(FactorizedSectionRefusal::ArithmeticOverflow);
                },
            };
            denominator = match 0i128.checked_sub(denominator) {
                Some(v) => v,
                None => {
                    return Err(FactorizedSectionRefusal::ArithmeticOverflow);
                },
            };
        }
        let mut left: i128 = if numerator < 0 {
            match 0i128.checked_sub(numerator) {
                Some(v) => v,
                None => {
                    return Err(FactorizedSectionRefusal::ArithmeticOverflow);
                },
            }
        } else {
            numerator
        };
        let mut right: i128 = denominator;
        let ghost a0 = left as nat;
        let ghost b0 = right as nat;
        while right != 0
            invariant
                left >= 0,
                right >= 0,
                gcd(left as nat, right as nat) == gcd(a0, b0),
            decreases right,
        {
            let remainder = left % right;
            left = right;
            right = remainder;
        }
        let divisor = if left < 1 { 1 } else { left };
        let n = if numerator >= 0 { numerator / divisor } else { -((-numerator) / divisor) };
        Ok(Self { numerator: n, denominator: denominator / divisor })
    }

    /// The integer `value`.
    pub fn integer(value: i128) -> (r: Self)
        ensures
            r == (Rational { numerator: value, denominator: 1 }),
    {
        Self { numerator: value, denominator: 1 }
    }

    /// Whether the number is zero.
    pub fn is_zero(&self) -> (r: bool)
        ensures
            r == (self.numerator == 0),
    {
        self.numerator == 0
    }

    /// The sum of `self` and `other`, reduced.
    pub fn add(&self, other: &Self) -> (r: Result<Self, FactorizedSectionRefusal>)
        ensures
            ({
                let a = self.numerator * other.denominator;
                let b = other.numerator * self.denominator;
                let d = self.denominator * other.denominator;
                if fits_i128(a) && fits_i128(b) && fits_i128(a + b) && fits_i128(d) {
                    r == rational_spec(a + b, d)
                } else {
                    r == Err::<Rational, FactorizedSectionRefusal>(FactorizedSectionRefusal::ArithmeticOverflow)
                }
            }),
    {
        let left = self.numerator.checked_mul(other.denominator);
        let right = other.numerator.checked_mul(self.denominator);
        if left.is_none() || right.is_none() {
            return Err(FactorizedSectionRefusal::ArithmeticOverflow);
        }
        let sum = match left.unwrap().checked_add(right.unwrap()) {
            Some(v) => v,
            None => {
                return Err(FactorizedSectionRefusal::ArithmeticOverflow);
            },
        };
        let den = match self.denominator.checked_mul(other.denominator) {
            Some(v) => v,
            None => {
                return Err(FactorizedSectionRefusal::ArithmeticOverflow);
            },
        };
        Self::new(sum, den)
    }

    /// The difference of `self` and `other`, reduced.
    pub fn subtract(&self, other: &Self) -> (r: Result<Self, FactorizedSectionRefusal>)
        ensures
            ({
                let a = self.numerator * other.denominator;
                let b = other.numerator * self.denominator;
                let d = self.denominator * other.denominator;
                if fits_i128(a) && fits_i128(b) && fits_i128(a - b) && fits_i128(d) {
                    r == rational_spec(a - b, d)
                } else {
                    r == Err::<Rational, FactorizedSectionRefusal>(FactorizedSectionRefusal::ArithmeticOverflow)
                }
            }),
    {
        let left = self.numerator.checked_mul(other.denominator);
        let right = other.numerator.checked_mul(self.denominator);
        if left.is_none() || right.is_none() {
            return Err(FactorizedSectionRefusal::ArithmeticOverflow);
        }
        let diff = match left.unwrap().checked_sub(right.unwrap()) {
            Some(v) => v,
            None => {
                return Err(FactorizedSectionRefusal::ArithmeticOverflow);
            },
        };
        let den = match self.denominator.checked_mul(other.denominator) {
            Some(v) => v,
            None => {
                return Err(FactorizedSectionRefusal::ArithmeticOverflow);
            },
        };
        Self::new(diff, den)
    }

    /// The product of `self` and `other`, reduced.
    pub fn multiply(&self, other: &Self) -> (r: Result<Self, FactorizedSectionRefusal>)
        ensures
            ({
                let n = self.numerator * other.numerator;
                let d = self.denominator * other.denominator;
                if fits_i128(n) && fits_i128(d) {
                    r == rational_spec(n, d)
                } else {
                    r == Err::<Rational, FactorizedSectionRefusal>(FactorizedSectionRefusal::ArithmeticOverflow)
                }
            }),
    {
        let n = match self.numerator.checked_mul(other.numerator) {
            Some(v) => v,
            None => {
                return Err(FactorizedSectionRefusal::ArithmeticOverflow);
            },
        };
        let d = match self.denominator.checked_mul(other.denominator) {
            Some(v) => v,
            None => {
                return Err(FactorizedSectionRefusal::ArithmeticOverflow);
            },
        };
        Self::new(n, d)
    }

    /// The quotient of `self` by `other`, reduced; refused for a zero divisor.
    pub fn divide(&self, other: &Self) -> (r: Result<Self, FactorizedSectionRefusal>)
        ensures
            ({
                let n = self.numerator * other.denominator;
                let d = self.denominator * other.numerator;
                if other.numerator != 0 && fits_i128(n) && fits_i128(d) {
                    r == rational_spec(n, d)
                } else {
                    r == Err::<Rational, FactorizedSectionRefusal>(FactorizedSectionRefusal::ArithmeticOverflow)
                }
            }),
    {
        if other.numerator == 0 {
            return Err(FactorizedSectionRefusal::ArithmeticOverflow);
        }
        let n = match self.numerator.checked_mul(other.denominator) {
            Some(v) => v,
            None => {
                return Err(FactorizedSectionRefusal::ArithmeticOverflow);
            },
        };
        let d = match self.denominator.checked_mul(other.numerator) {
            Some(v) => v,
            None => {
                return Err(FactorizedSectionRefusal::ArithmeticOverflow);
            },
        };
        Self::new(n, d)
    }
}


/// The ids read along a list of bases: the root 0, then the four targets of
/// each base in turn.
pub open spec fn base_walk(bases: Seq<Base>) -> Seq<usize> {
    Seq::new(
        (1 + 4 * bases.len()) as nat,
        |p: int|
            if p == 0 {
                0usize
            } else {
                bases[(p - 1) / 4].tau@[(p - 1) % 4]
            },
    )
}

/// `bases` is the graph `(epsilon, tau)` with equivalent states merged, read
/// from `initial`: `phi` sends each state to its base, the base of `initial`
/// is 0, every base is some state's, a base has the epsilons of its states and
/// its targets are the bases of their successors, and two states share a base
/// exactly when they are equivalent.
pub open spec fn quotient_by(
    epsilon: Seq<[i128; 3]>,
    tau: Seq<[usize; 4]>,
    initial: int,
    bases: Seq<Base>,
    phi: Seq<int>,
) -> bool {
    &&& phi.len() == epsilon.len()
    &&& phi[initial] == 0
    &&& forall|s: int| 0 <= s < epsilon.len() ==> 0 <= #[trigger] phi[s] < bases.len()
    &&& forall|b: int| 0 <= b < bases.len() ==> #[trigger] phi.contains(b)
    &&& forall|s: int|
        0 <= s < epsilon.len() ==> (#[trigger] bases[phi[s]]).epsilon_nonzero@ == epsilon[s]@
    &&& forall|s: int, a: int|
        0 <= s < epsilon.len() && 0 <= a < 4 ==> #[trigger] bases[phi[s]].tau@[a] == phi[tau[s]@[a] as int]
    &&& forall|s: int, t: int|
        0 <= s < epsilon.len() && 0 <= t < epsilon.len() ==> (#[trigger] phi[s] == #[trigger] phi[t]) == equivalent(
            epsilon,
            tau,
            s,
            t,
        )
}

/// Some `k` states are pairwise not equivalent.
pub open spec fn has_distinct_states(epsilon: Seq<[i128; 3]>, tau: Seq<[usize; 4]>, k: nat) -> bool {
    exists|ss: Seq<int>|
        #![trigger ss.len()]
        ss.len() == k && (forall|i: int| 0 <= i < k ==> 0 <= #[trigger] ss[i] < epsilon.len()) && (forall|
            i: int,
            j: int,
        |
            0 <= i < k && 0 <= j < k && i != j ==> !equivalent(epsilon, tau, #[trigger] ss[i], #[trigger] ss[j]))
}

/// Some word leads from `initial` to a state equivalent to `s`.
pub open spec fn reaches(epsilon: Seq<[i128; 3]>, tau: Seq<[usize; 4]>, initial: int, s: int) -> bool {
    exists|w: Seq<int>| #[trigger] is_word(w) && equivalent(epsilon, tau, run(tau, initial, w), s)
}

/// Every state is equivalent to one reached from `initial`.
pub open spec fn all_reached(epsilon: Seq<[i128; 3]>, tau: Seq<[usize; 4]>, initial: int) -> bool {
    forall|s: int| 0 <= s < epsilon.len() ==> #[trigger] reaches(epsilon, tau, initial, s)
}

/// `bases` is the minimized graph `(epsilon, tau)` read from `initial`: the
/// graph is well formed, every state is reached, there are at most 64 bases,
/// numbered in the order their walk meets them, and they are a quotient of
/// the graph.
pub open spec fn minimized(epsilon: Seq<[i128; 3]>, tau: Seq<[usize; 4]>, initial: int, bases: Seq<Base>) -> bool {
    &&& graph_shape(epsilon, tau)
    &&& 0 <= initial < epsilon.len()
    &&& all_reached(epsilon, tau, initial)
    &&& bases.len() <= 64
    &&& canon(base_walk(bases)).0 == base_walk(bases)
    &&& exists|phi: Seq<int>| quotient_by(epsilon, tau, initial, bases, phi)
}

/// Inputs `minimize_bases` takes at all.
pub open spec fn minimize_input(epsilon: Seq<[i128; 3]>, tau: Seq<[usize; 4]>, initial: int) -> bool {
    epsilon.len() > 0 && epsilon.len() == tau.len() && 0 <= initial < epsilon.len()
}

/// With `classes` numbering the equivalence classes `0..count`, more than 64
/// pairwise inequivalent states exist exactly when `count` exceeds 64.
proof fn lemma_count_distinct(
    epsilon: Seq<[i128; 3]>,
    tau: Seq<[usize; 4]>,
    classes: Seq<usize>,
    count: nat,
    rep: Seq<usize>,
)
    requires
        graph_shape(epsilon, tau),
        classes.len() == epsilon.len(),
        rep.len() == count,
        forall|s: int| 0 <= s < epsilon.len() ==> #[trigger] classes[s] < count,
        forall|c: int| 0 <= c < count ==> #[trigger] rep[c] < epsilon.len() && classes[rep[c] as int] == c,
        forall|s: int, t: int|
            0 <= s < epsilon.len() && 0 <= t < epsilon.len() ==> (#[trigger] classes[s] == #[trigger] classes[t])
                == equivalent(epsilon, tau, s, t),
    ensures
        has_distinct_states(epsilon, tau, 65) == (count > 64),
{
    if count > 64 {
        let ss = Seq::new(65, |i: int| rep[i] as int);
        assert forall|i: int, j: int| 0 <= i < 65 && 0 <= j < 65 && i != j implies !equivalent(
            epsilon,
            tau,
            #[trigger] ss[i],
            #[trigger] ss[j],
        ) by {
            assert(classes[rep[i] as int] == i);
            assert(classes[rep[j] as int] == j);
        }
        assert(ss.len() == 65);
    }
    if has_distinct_states(epsilon, tau, 65) {
        let ss = choose|ss: Seq<int>|
            #![trigger ss.len()]
            ss.len() == 65 && (forall|i: int| 0 <= i < 65 ==> 0 <= #[trigger] ss[i] < epsilon.len()) && (forall|
                i: int,
                j: int,
            |
                0 <= i < 65 && 0 <= j < 65 && i != j ==> !equivalent(epsilon, tau, #[trigger] ss[i], #[trigger] ss[j]));
        let cs = Seq::new(65, |i: int| classes[ss[i]]);
        assert(cs.no_duplicates()) by {
            assert forall|i: int, j: int| 0 <= i < 65 && 0 <= j < 65 && i != j implies cs[i] != cs[j] by {
                assert(!equivalent(epsilon, tau, ss[i], ss[j]));
                assert(0 <= ss[i] < epsilon.len() && 0 <= ss[j] < epsilon.len());
            }
        }
        assert forall|i: int| 0 <= i < cs.len() implies #[trigger] cs[i] < count by {
            assert(0 <= ss[i] < epsilon.len());
        }
        lemma_distinct_below(cs, count as int);
    }
}


/// Every entry of `canonical` is a number.
fn all_numbered(canonical: &Vec<usize>) -> (b: bool)
    ensures
        b == forall|d: int| 0 <= d < canonical.len() ==> #[trigger] canonical@[d] != usize::MAX,
{
    let mut c: usize = 0;
    while c < canonical.len()
        invariant
            c <= canonical.len(),
            forall|d: int| 0 <= d < c ==> #[trigger] canonical@[d] != usize::MAX,
        decreases canonical.len() - c,
    {
        if canonical[c] == usize::MAX {
            return false;
        }
        c += 1;
    }
    true
}

/// A class the search did not number holds a state no word reaches.
proof fn lemma_unnumbered_unreached(
    epsilon: Seq<[i128; 3]>,
    tau: Seq<[usize; 4]>,
    classes: Seq<usize>,
    count: nat,
    rep: Seq<usize>,
    canonical: Seq<usize>,
    order: Seq<usize>,
    initial: int,
)
    requires
        search_facts(epsilon, tau, classes, count, rep, canonical, order, initial),
        !(forall|d: int| 0 <= d < canonical.len() ==> #[trigger] canonical[d] != usize::MAX),
    ensures
        !all_reached(epsilon, tau, initial),
{
    let c = choose|d: int| 0 <= d < canonical.len() && canonical[d] == usize::MAX;
    let cu = c as usize;
    assert(cu as int == c);
    assert(classes.contains(cu));
    let s = choose|s: int| 0 <= s < classes.len() && classes[s] == cu;
    if reaches(epsilon, tau, initial, s) {
        let w = choose|w: Seq<int>| #[trigger] is_word(w) && equivalent(epsilon, tau, run(tau, initial, w), s);
        lemma_search_closed(epsilon, tau, classes, count, rep, canonical, order, initial, w);
        let x = run(tau, initial, w);
        assert(classes[x] == classes[s]);
        assert(canonical[classes[x] as int] != usize::MAX);
        assert(false);
    }
    assert(!reaches(epsilon, tau, initial, s));
}

/// When the search numbered every class, every state is reached.
proof fn lemma_numbered_reached(
    epsilon: Seq<[i128; 3]>,
    tau: Seq<[usize; 4]>,
    classes: Seq<usize>,
    count: nat,
    rep: Seq<usize>,
    canonical: Seq<usize>,
    order: Seq<usize>,
    initial: int,
)
    requires
        search_facts(epsilon, tau, classes, count, rep, canonical, order, initial),
        forall|d: int| 0 <= d < canonical.len() ==> #[trigger] canonical[d] != usize::MAX,
    ensures
        all_reached(epsilon, tau, initial),
{
    assert forall|s: int| 0 <= s < epsilon.len() implies #[trigger] reaches(epsilon, tau, initial, s) by {
        let k = classes[s] as int;
        let j = canonical[k] as int;
        assert(canonical[k] != usize::MAX);
        assert(order[j] == k);
        assert(reached(tau, classes, initial, order[j]));
        let w = choose|w: Seq<int>| #[trigger] is_word(w) && classes[run(tau, initial, w)] == order[j];
        lemma_search_closed(epsilon, tau, classes, count, rep, canonical, order, initial, w);
        assert(equivalent(epsilon, tau, run(tau, initial, w), s));
    }
}

/// The bases built from a complete search are the quotient, in search order.
proof fn lemma_quotient(
    epsilon: Seq<[i128; 3]>,
    tau: Seq<[usize; 4]>,
    classes: Seq<usize>,
    count: nat,
    rep: Seq<usize>,
    canonical: Seq<usize>,
    order: Seq<usize>,
    initial: int,
    bases: Seq<Base>,
)
    requires
        search_facts(epsilon, tau, classes, count, rep, canonical, order, initial),
        forall|d: int| 0 <= d < canonical.len() ==> #[trigger] canonical[d] != usize::MAX,
        canon(search_walk(tau, classes, rep, canonical, order)).0 == search_walk(tau, classes, rep, canonical, order),
        bases.len() == order.len(),
        forall|i: int|
            0 <= i < order.len() ==> (#[trigger] bases[i]).epsilon_nonzero == epsilon[rep[order[i] as int] as int]
                && forall|b: int| 0 <= b < 4 ==> #[trigger] bases[i].tau@[b] == target_id(tau, classes, rep, canonical, order, i, b),
    ensures
        canon(base_walk(bases)).0 == base_walk(bases),
        quotient_by(epsilon, tau, initial, bases, Seq::new(epsilon.len(), |s: int| canonical[classes[s] as int] as int)),
{
    let n = epsilon.len();
    let phi = Seq::new(n, |s: int| canonical[classes[s] as int] as int);
    assert(base_walk(bases) =~= search_walk(tau, classes, rep, canonical, order)) by {
        assert forall|p: int| 0 < p < base_walk(bases).len() implies base_walk(bases)[p] == search_walk(
            tau,
            classes,
            rep,
            canonical,
            order,
        )[p] by {
            let i = (p - 1) / 4;
            let b = (p - 1) % 4;
            assert(0 <= i < bases.len() && 0 <= b < 4);
            assert(bases[i].tau@[b] == target_id(tau, classes, rep, canonical, order, i, b));
        }
    }
    assert forall|s: int| 0 <= s < n implies 0 <= #[trigger] phi[s] < bases.len() by {
        assert(canonical[classes[s] as int] != usize::MAX);
    }
    assert forall|b: int| 0 <= b < bases.len() implies #[trigger] phi.contains(b) by {
        let k = order[b] as int;
        let s = rep[k] as int;
        assert(classes[s] == k);
        assert(phi[s] == b);
    }
    assert forall|s: int| 0 <= s < n implies (#[trigger] bases[phi[s]]).epsilon_nonzero@ == epsilon[s]@ by {
        let k = classes[s] as int;
        let i = phi[s];
        assert(canonical[k] != usize::MAX);
        assert(order[i] == k);
        lemma_stable_successor(epsilon, tau, classes, s, rep[k] as int, 0);
    }
    assert forall|s: int, a: int| 0 <= s < n && 0 <= a < 4 implies #[trigger] bases[phi[s]].tau@[a] == phi[tau[s]@[a] as int] by {
        let k = classes[s] as int;
        let i = phi[s];
        assert(canonical[k] != usize::MAX);
        assert(order[i] == k);
        lemma_stable_successor(epsilon, tau, classes, s, rep[k] as int, a);
        assert(tau[s]@[a] < n);
    }
    assert forall|s: int, t: int| 0 <= s < n && 0 <= t < n implies (#[trigger] phi[s] == #[trigger] phi[t]) == equivalent(
        epsilon,
        tau,
        s,
        t,
    ) by {
        let (ks, kt) = (classes[s] as int, classes[t] as int);
        assert(canonical[ks] != usize::MAX && canonical[kt] != usize::MAX);
        if phi[s] == phi[t] {
            assert(order[canonical[ks] as int] == ks);
            assert(order[canonical[kt] as int] == kt);
        }
    }
}


/// The bases of a complete search: the `j`-th is the class numbered `j`,
/// with the epsilons of its representative and the numbers of its targets.
fn build_bases(
    epsilon: &[[i128; 3]],
    tau: &[[usize; 4]],
    classes: &Vec<usize>,
    count: usize,
    rep: &Vec<usize>,
    canonical: &Vec<usize>,
    order: &Vec<usize>,
    initial: usize,
) -> (bases: Vec<Base>)
    requires
        search_facts(epsilon@, tau@, classes@, count as nat, rep@, canonical@, order@, initial as int),
        forall|d: int| 0 <= d < canonical.len() ==> #[trigger] canonical@[d] != usize::MAX,
        canon(search_walk(tau@, classes@, rep@, canonical@, order@)).0 == search_walk(
            tau@,
            classes@,
            rep@,
            canonical@,
            order@,
        ),
    ensures
        bases@.len() <= count,
        canon(base_walk(bases@)).0 == base_walk(bases@),
        quotient_by(
            epsilon@,
            tau@,
            initial as int,
            bases@,
            Seq::new(epsilon.len() as nat, |s: int| canonical@[classes@[s] as int] as int),
        ),
{
    let n = epsilon.len();
    let mut bases: Vec<Base> = Vec::new();
    let mut j: usize = 0;
    while j < order.len()
        invariant
            j <= order.len() <= count,
            n == epsilon.len() == tau.len() == classes.len(),
            search_facts(epsilon@, tau@, classes@, count as nat, rep@, canonical@, order@, initial as int),
            bases.len() == j,
            forall|i: int|
                0 <= i < j ==> (#[trigger] bases@[i]).epsilon_nonzero == epsilon@[rep@[order@[i] as int] as int] && forall|
                    b: int,
                | 0 <= b < 4 ==> #[trigger] bases@[i].tau@[b] == target_id(tau@, classes@, rep@, canonical@, order@, i, b),
        decreases order.len() - j,
    {
        let st = rep[order[j]];
        let row = tau[st];
        assert(row@[0] < n && row@[1] < n && row@[2] < n && row@[3] < n);
        let next = [
            canonical[classes[row[0]]],
            canonical[classes[row[1]]],
            canonical[classes[row[2]]],
            canonical[classes[row[3]]],
        ];
        bases.push(Base { epsilon_nonzero: epsilon[st], tau: next });
        proof {
            assert forall|b: int| 0 <= b < 4 implies #[trigger] bases@[j as int].tau@[b] == target_id(
                tau@,
                classes@,
                rep@,
                canonical@,
                order@,
                j as int,
                b,
            ) by {
                assert(bases@[j as int].tau == next);
            }
        }
        j += 1;
    }
    proof {
        lemma_quotient(epsilon@, tau@, classes@, count as nat, rep@, canonical@, order@, initial as int, bases@);
    }
    bases
}

/// The graph `(epsilon, tau)` read from `initial`, with equivalent states
/// merged: the returned bases are the equivalence classes, numbered in the
/// order a breadth-first search from the class of `initial` meets them
/// (symbols in order), and the root is 0. Refused for an empty graph, rows
/// of unequal count or an `initial` out of range, for more than 64 classes,
/// and when some class cannot be reached from `initial`.
pub fn minimize_bases(epsilon: &[[i128; 3]], tau: &[[usize; 4]], initial: usize) -> (r: Result<
    (Vec<Base>, usize),
    FactorizedSectionRefusal,
>)
    requires
        epsilon.len() == tau.len() ==> transitions_in(tau@, epsilon@.len()),
    ensures
        !minimize_input(epsilon@, tau@, initial as int) ==> r == Err::<(Vec<Base>, usize), _>(
            FactorizedSectionRefusal::UnsupportedNode,
        ),
        minimize_input(epsilon@, tau@, initial as int) && has_distinct_states(epsilon@, tau@, 65) ==> r == Err::<
            (Vec<Base>, usize),
            _,
        >(FactorizedSectionRefusal::SourceBudgetExceeded),
        minimize_input(epsilon@, tau@, initial as int) && !has_distinct_states(epsilon@, tau@, 65) && !all_reached(
            epsilon@,
            tau@,
            initial as int,
        ) ==> r == Err::<(Vec<Base>, usize), _>(FactorizedSectionRefusal::UnsupportedNode),
        minimize_input(epsilon@, tau@, initial as int) && !has_distinct_states(epsilon@, tau@, 65) && all_reached(
            epsilon@,
            tau@,
            initial as int,
        ) ==> r is Ok,
        r matches Ok((bases, root)) ==> root == 0 && minimized(epsilon@, tau@, initial as int, bases@),
{
    if epsilon.len() == 0 || epsilon.len() != tau.len() || initial >= epsilon.len() {
        return Err(FactorizedSectionRefusal::UnsupportedNode);
    }
    let n = epsilon.len();
    let (classes, count) = stable_classes(epsilon, tau);
    let rep = class_representatives(&classes, count);
    proof {
        lemma_count_distinct(epsilon@, tau@, classes@, count as nat, rep@);
    }
    if count > 64 {
        return Err(FactorizedSectionRefusal::SourceBudgetExceeded);
    }
    let (canonical, order) = search_classes(epsilon, tau, &classes, count, &rep, initial);
    proof {
        assert(search_facts(epsilon@, tau@, classes@, count as nat, rep@, canonical@, order@, initial as int));
    }
    if !all_numbered(&canonical) {
        proof {
            lemma_unnumbered_unreached(epsilon@, tau@, classes@, count as nat, rep@, canonical@, order@, initial as int);
        }
        return Err(FactorizedSectionRefusal::UnsupportedNode);
    }
    proof {
        lemma_numbered_reached(epsilon@, tau@, classes@, count as nat, rep@, canonical@, order@, initial as int);
    }
    let bases = build_bases(epsilon, tau, &classes, count, &rep, &canonical, &order, initial);
    proof {
        let phi = Seq::new(n as nat, |s: int| canonical@[classes@[s] as int] as int);
        assert(quotient_by(epsilon@, tau@, initial as int, bases@, phi));
    }
    Ok((bases, 0))
}

/// `t` picks one base of each child.
pub open spec fn tuple_ok(children: Seq<BaseGraph>, t: Seq<usize>) -> bool {
    &&& t.len() == children.len()
    &&& forall|i: int| 0 <= i < t.len() ==> #[trigger] t[i] < children[i].bases@.len()
}

/// The contributions of `symbol` in the bases `t` picks of the first `k`
/// children, added up.
pub open spec fn eps_sum(children: Seq<BaseGraph>, t: Seq<usize>, symbol: int, k: int) -> int
    decreases k,
{
    if k <= 0 {
        0
    } else {
        eps_sum(children, t, symbol, k - 1) + epsilon_of(children[k - 1].bases@[t[k - 1] as int], symbol)
    }
}

/// Every running total of `eps_sum` up to `k` fits in an `i128`.
pub open spec fn sums_fit(children: Seq<BaseGraph>, t: Seq<usize>, symbol: int, k: int) -> bool {
    forall|j: int| 0 <= j <= k ==> fits_i128(#[trigger] eps_sum(children, t, symbol, j))
}

/// The bases each child moves to from `t` on `symbol`.
pub open spec fn step_tuple(children: Seq<BaseGraph>, t: Seq<usize>, symbol: int) -> Seq<usize> {
    Seq::new(children.len(), |i: int| children[i].bases@[t[i] as int].tau@[symbol])
}

/// Every child is well formed.
pub open spec fn children_wf(children: Seq<BaseGraph>) -> bool {
    forall|i: int| 0 <= i < children.len() ==> graph_wf(#[trigger] children[i])
}

/// The roots of the children.
pub open spec fn root_tuple(children: Seq<BaseGraph>) -> Seq<usize> {
    Seq::new(children.len(), |i: int| children[i].root)
}

/// The sum of the children's constants.
pub open spec fn r0_sum(children: Seq<BaseGraph>, k: int) -> int
    decreases k,
{
    if k <= 0 {
        0
    } else {
        r0_sum(children, k - 1) + children[k - 1].r0
    }
}

/// The product graph as explored: distinct tuples of child bases starting at
/// the roots, each with the summed contributions of its bases and with the
/// tuple each symbol leads to.
pub open spec fn product_explored(
    children: Seq<BaseGraph>,
    tuples: Seq<Seq<usize>>,
    epsilon: Seq<[i128; 3]>,
    tau: Seq<[usize; 4]>,
) -> bool {
    &&& tuples.len() == epsilon.len() == tau.len()
    &&& tuples.len() > 0
    &&& tuples[0] == root_tuple(children)
    &&& forall|k: int| 0 <= k < tuples.len() ==> tuple_ok(children, #[trigger] tuples[k])
    &&& forall|j: int, k: int| 0 <= j < tuples.len() && 0 <= k < tuples.len() && j != k ==> #[trigger] tuples[j]
        != #[trigger] tuples[k]
    &&& forall|k: int, a: int|
        0 <= k < tuples.len() && 0 <= a < 3 ==> #[trigger] epsilon[k]@[a] == eps_sum(
            children,
            tuples[k],
            a + 1,
            children.len() as int,
        )
    &&& forall|k: int, a: int|
        0 <= k < tuples.len() && 0 <= a < 4 ==> #[trigger] tau[k]@[a] < tuples.len() && tuples[tau[k]@[a] as int]
            == step_tuple(children, tuples[k], a)
}

/// The total contribution of `symbol` over the bases `tuple` picks, and the
/// tuple `symbol` leads to; refused when a running total overflows.
fn combine(children: &[BaseGraph], tuple: &Vec<usize>, symbol: usize) -> (r: Result<
    (i128, Vec<usize>),
    FactorizedSectionRefusal,
>)
    requires
        symbol < 4,
        children_wf(children@),
        tuple_ok(children@, tuple@),
    ensures
        sums_fit(children@, tuple@, symbol as int, children.len() as int) ==> r is Ok,
        r matches Ok((sum, dest)) ==> sum == eps_sum(children@, tuple@, symbol as int, children.len() as int)
            && dest@ == step_tuple(children@, tuple@, symbol as int) && tuple_ok(children@, dest@) && sums_fit(
            children@,
            tuple@,
            symbol as int,
            children.len() as int,
        ),
        r is Err ==> r == Err::<(i128, Vec<usize>), _>(FactorizedSectionRefusal::ArithmeticOverflow),
{
    let mut sum: i128 = 0;
    let mut dest: Vec<usize> = Vec::new();
    let mut i: usize = 0;
    while i < children.len()
        invariant
            i <= children.len() == tuple.len(),
            symbol < 4,
            children_wf(children@),
            tuple_ok(children@, tuple@),
            sum == eps_sum(children@, tuple@, symbol as int, i as int),
            sums_fit(children@, tuple@, symbol as int, i as int),
            dest@ == step_tuple(children@, tuple@, symbol as int).take(i as int),
        decreases children.len() - i,
    {
        let child = &children[i];
        assert(graph_wf(children@[i as int]));
        let base = &child.bases[tuple[i]];
        let e = base.epsilon(symbol);
        let next = match sum.checked_add(e) {
            Some(v) => v,
            None => {
                proof {
                    assert(!fits_i128(eps_sum(children@, tuple@, symbol as int, i + 1)));
                    assert(!sums_fit(children@, tuple@, symbol as int, children.len() as int));
                }
                return Err(FactorizedSectionRefusal::ArithmeticOverflow);
            },
        };
        sum = next;
        dest.push(base.tau[symbol]);
        i += 1;
        proof {
            assert(dest@ =~= step_tuple(children@, tuple@, symbol as int).take(i as int));
            assert forall|j: int| 0 <= j <= i implies fits_i128(#[trigger] eps_sum(children@, tuple@, symbol as int, j)) by {
                if j < i {
                    assert(sums_fit(children@, tuple@, symbol as int, i - 1));
                }
            }
        }
    }
    proof {
        assert(dest@ =~= step_tuple(children@, tuple@, symbol as int));
        assert forall|k: int| 0 <= k < dest@.len() implies #[trigger] dest@[k] < children@[k].bases@.len() by {
            assert(graph_wf(children@[k]));
            assert(tuple@[k] < children@[k].bases@.len());
        }
    }
    Ok((sum, dest))
}

/// Whether two tuples are equal.
fn same_tuple(a: &Vec<usize>, b: &Vec<usize>) -> (r: bool)
    ensures
        r == (a@ == b@),
{
    if a.len() != b.len() {
        return false;
    }
    let mut i: usize = 0;
    while i < a.len()
        invariant
            i <= a.len() == b.len(),
            forall|j: int| 0 <= j < i ==> a@[j] == b@[j],
        decreases a.len() - i,
    {
        if a[i] != b[i] {
            return false;
        }
        i += 1;
    }
    assert(a@ =~= b@);
    true
}

/// The position of `t` among `tuples`.
fn find_tuple(tuples: &Vec<Vec<usize>>, t: &Vec<usize>) -> (r: Option<usize>)
    ensures
        r matches Some(k) ==> k < tuples.len() && tuples@[k as int]@ == t@,
        r is None ==> forall|k: int| 0 <= k < tuples.len() ==> #[trigger] tuples@[k]@ != t@,
{
    let mut k: usize = 0;
    while k < tuples.len()
        invariant
            k <= tuples.len(),
            forall|j: int| 0 <= j < k ==> #[trigger] tuples@[j]@ != t@,
        decreases tuples.len() - k,
    {
        if same_tuple(&tuples[k], t) {
            return Some(k);
        }
        k += 1;
    }
    None
}

/// The views of a list of tuples.
pub open spec fn tuple_views(tuples: Seq<Vec<usize>>) -> Seq<Seq<usize>> {
    Seq::new(tuples.len(), |k: int| tuples[k]@)
}

/// The sum of the children's constants, refused when a running total
/// overflows.
fn sum_r0(children: &[BaseGraph]) -> (r: Result<i128, FactorizedSectionRefusal>)
    ensures
        (forall|j: int| 0 <= j <= children.len() ==> fits_i128(#[trigger] r0_sum(children@, j))) ==> r
            == Ok::<i128, FactorizedSectionRefusal>(r0_sum(children@, children.len() as int) as i128),
        !(forall|j: int| 0 <= j <= children.len() ==> fits_i128(#[trigger] r0_sum(children@, j))) ==> r
            == Err::<i128, FactorizedSectionRefusal>(FactorizedSectionRefusal::ArithmeticOverflow),
{
    let mut sum: i128 = 0;
    let mut i: usize = 0;
    while i < children.len()
        invariant
            i <= children.len(),
            sum == r0_sum(children@, i as int),
            forall|j: int| 0 <= j <= i ==> fits_i128(#[trigger] r0_sum(children@, j)),
        decreases children.len() - i,
    {
        sum = match sum.checked_add(children[i].r0) {
            Some(v) => v,
            None => {
                proof {
                    assert(!fits_i128(r0_sum(children@, i + 1)));
                }
                return Err(FactorizedSectionRefusal::ArithmeticOverflow);
            },
        };
        i += 1;
    }
    Ok(sum)
}

/// The tuple of child bases that reading the word `w` leads `t` to.
pub open spec fn tuple_from(children: Seq<BaseGraph>, t: Seq<usize>, w: Seq<int>) -> Seq<usize>
    decreases w.len(),
{
    if w.len() == 0 {
        t
    } else {
        tuple_from(children, step_tuple(children, t, w[0]), w.drop_first())
    }
}

/// Some word leads the children together from their roots to the bases `t`.
pub open spec fn tuple_reached(children: Seq<BaseGraph>, t: Seq<usize>) -> bool {
    exists|w: Seq<int>| #[trigger] is_word(w) && tuple_from(children, root_tuple(children), w) == t
}

/// Reading one more symbol steps the tuple once more.
proof fn lemma_tuple_from_push(children: Seq<BaseGraph>, t: Seq<usize>, w: Seq<int>, a: int)
    ensures
        tuple_from(children, t, w.push(a)) == step_tuple(children, tuple_from(children, t, w), a),
    decreases w.len(),
{
    if w.len() > 0 {
        assert(w.push(a).drop_first() =~= w.drop_first().push(a));
        assert(w.push(a)[0] == w[0]);
        lemma_tuple_from_push(children, step_tuple(children, t, w[0]), w.drop_first(), a);
        assert(tuple_from(children, t, w.push(a)) == tuple_from(
            children,
            step_tuple(children, t, w[0]),
            w.drop_first().push(a),
        ));
    } else {
        let e = Seq::<int>::empty();
        assert(w.push(a).drop_first() =~= e);
        assert(w.push(a)[0] == a);
        assert(tuple_from(children, step_tuple(children, t, a), e) == step_tuple(children, t, a));
        assert(tuple_from(children, t, w.push(a)) == tuple_from(children, step_tuple(children, t, a), e));
    }
}

/// A tuple one symbol past a reached tuple is reached.
proof fn lemma_tuple_reached_step(children: Seq<BaseGraph>, t: Seq<usize>, a: int)
    requires
        tuple_reached(children, t),
        0 <= a < 4,
    ensures
        tuple_reached(children, step_tuple(children, t, a)),
{
    let w = choose|w: Seq<int>| #[trigger] is_word(w) && tuple_from(children, root_tuple(children), w) == t;
    lemma_tuple_from_push(children, root_tuple(children), w, a);
    lemma_word_push(w, a);
    assert(is_word(w.push(a)) && tuple_from(children, root_tuple(children), w.push(a)) == step_tuple(children, t, a));
}

/// The explored transitions follow the tuples: a word read from state `k`
/// ends on the tuple it leads `tuples[k]` to.
proof fn lemma_explored_run(
    children: Seq<BaseGraph>,
    tuples: Seq<Seq<usize>>,
    epsilon: Seq<[i128; 3]>,
    tau: Seq<[usize; 4]>,
    k: int,
    w: Seq<int>,
)
    requires
        product_explored(children, tuples, epsilon, tau),
        0 <= k < tuples.len(),
        is_word(w),
    ensures
        0 <= run(tau, k, w) < tuples.len(),
        tuples[run(tau, k, w)] == tuple_from(children, tuples[k], w),
    decreases w.len(),
{
    if w.len() > 0 {
        let next = tau[k]@[w[0]] as int;
        assert(0 <= w[0] < 4);
        assert(tuples[next] == step_tuple(children, tuples[k], w[0]));
        assert(is_word(w.drop_first())) by {
            assert forall|i: int| 0 <= i < w.drop_first().len() implies 0 <= #[trigger] w.drop_first()[i] < 4 by {
                assert(w.drop_first()[i] == w[i + 1]);
            }
        }
        lemma_explored_run(children, tuples, epsilon, tau, next, w.drop_first());
    }
}

/// When every explored tuple is reached from the roots, every state of the
/// explored graph is reached from state 0.
proof fn lemma_explored_all_reached(
    children: Seq<BaseGraph>,
    tuples: Seq<Seq<usize>>,
    epsilon: Seq<[i128; 3]>,
    tau: Seq<[usize; 4]>,
)
    requires
        product_explored(children, tuples, epsilon, tau),
        forall|k: int| 0 <= k < tuples.len() ==> tuple_reached(children, #[trigger] tuples[k]),
    ensures
        all_reached(epsilon, tau, 0),
{
    assert forall|s: int| 0 <= s < epsilon.len() implies #[trigger] reaches(epsilon, tau, 0, s) by {
        assert(tuple_reached(children, tuples[s]));
        let w = choose|w: Seq<int>| #[trigger] is_word(w) && tuple_from(children, root_tuple(children), w) == tuples[s];
        lemma_explored_run(children, tuples, epsilon, tau, 0, w);
        assert(run(tau, 0, w) == s);
        assert(equivalent(epsilon, tau, run(tau, 0, w), s));
    }
}

/// Some running total of the sum overflows: one of the constants', or one of
/// the contributions of a symbol in a tuple of bases the children reach
/// together.
pub open spec fn product_overflows(children: Seq<BaseGraph>) -> bool {
    ||| !(forall|j: int| 0 <= j <= children.len() ==> fits_i128(#[trigger] r0_sum(children, j)))
    ||| exists|t: Seq<usize>, a: int|
        #![trigger tuple_reached(children, t), sums_fit(children, t, a, children.len() as int)]
        tuple_reached(children, t) && 0 <= a < 4 && !sums_fit(children, t, a, children.len() as int)
}

/// The children reach more than 256 tuples of bases together.
pub open spec fn product_beyond_budget(children: Seq<BaseGraph>) -> bool {
    exists|ts: Seq<Seq<usize>>|
        #![trigger ts.len()]
        ts.len() == 257 && (forall|k: int| 0 <= k < 257 ==> tuple_reached(children, #[trigger] ts[k])) && (forall|
            j: int,
            k: int,
        | 0 <= j < 257 && 0 <= k < 257 && j != k ==> #[trigger] ts[j] != #[trigger] ts[k])
}

/// Distinct reached tuples are as many as explored tuples at most: each is
/// the tuple of the state its word leads to.
proof fn lemma_explored_bound(
    children: Seq<BaseGraph>,
    tuples: Seq<Seq<usize>>,
    epsilon: Seq<[i128; 3]>,
    tau: Seq<[usize; 4]>,
    ts: Seq<Seq<usize>>,
)
    requires
        product_explored(children, tuples, epsilon, tau),
        tuples.len() <= 256,
        forall|k: int| 0 <= k < ts.len() ==> tuple_reached(children, #[trigger] ts[k]),
        forall|j: int, k: int| 0 <= j < ts.len() && 0 <= k < ts.len() && j != k ==> #[trigger] ts[j] != #[trigger] ts[k],
    ensures
        ts.len() <= tuples.len(),
{
    let root = root_tuple(children);
    let idx = Seq::new(
        ts.len(),
        |i: int| run(tau, 0, choose|w: Seq<int>| #[trigger] is_word(w) && tuple_from(children, root, w) == ts[i]) as usize,
    );
    assert forall|i: int| 0 <= i < ts.len() implies #[trigger] idx[i] < tuples.len() && tuples[idx[i] as int] == ts[i] by {
        assert(tuple_reached(children, ts[i]));
        let w = choose|w: Seq<int>| #[trigger] is_word(w) && tuple_from(children, root, w) == ts[i];
        lemma_explored_run(children, tuples, epsilon, tau, 0, w);
        assert(idx[i] as int == run(tau, 0, w));
    }
    assert(idx.no_duplicates()) by {
        assert forall|i: int, j: int| 0 <= i < idx.len() && 0 <= j < idx.len() && i != j implies idx[i] != idx[j] by {
            assert(tuples[idx[i] as int] == ts[i]);
            assert(tuples[idx[j] as int] == ts[j]);
        }
    }
    lemma_distinct_below(idx, tuples.len() as int);
}

/// The sum is too large to describe: the children reach more than 256
/// tuples of bases together, or the explored graph has more than 64
/// inequivalent states.
pub open spec fn product_too_large(children: Seq<BaseGraph>) -> bool {
    ||| product_beyond_budget(children)
    ||| exists|tuples: Seq<Seq<usize>>, epsilon: Seq<[i128; 3]>, tau: Seq<[usize; 4]>|
        product_explored(children, tuples, epsilon, tau) && has_distinct_states(epsilon, tau, 65)
}

/// What the sum of the sections of `children` gives: refused as an
/// unsupported node exactly without children, for an overflow only when a
/// running total overflows, and over budget only when too many tuples or
/// classes arise; never a graph when more than 256 tuples are reached.
/// A graph has the summed constants, and its bases are the explored tuples
/// of child bases, minimized and numbered in walk order.
pub open spec fn product_outcome(children: Seq<BaseGraph>, r: Result<BaseGraph, FactorizedSectionRefusal>) -> bool {
    &&& (r == Err::<BaseGraph, _>(FactorizedSectionRefusal::UnsupportedNode)) == (children.len() == 0)
    &&& r == Err::<BaseGraph, _>(FactorizedSectionRefusal::ArithmeticOverflow) ==> product_overflows(children)
    &&& r == Err::<BaseGraph, _>(FactorizedSectionRefusal::SourceBudgetExceeded) ==> product_too_large(children)
    &&& r is Ok ==> !product_beyond_budget(children)
    &&& r is Err ==> r == Err::<BaseGraph, _>(FactorizedSectionRefusal::UnsupportedNode) || r == Err::<BaseGraph, _>(
        FactorizedSectionRefusal::ArithmeticOverflow,
    ) || r == Err::<BaseGraph, _>(FactorizedSectionRefusal::SourceBudgetExceeded)
    &&& r matches Ok(g) ==> {
        &&& g.root == 0
        &&& g.bases@.len() <= 64
        &&& g.r0 == r0_sum(children, children.len() as int)
        &&& canon(base_walk(g.bases@)).0 == base_walk(g.bases@)
        &&& exists|tuples: Seq<Seq<usize>>, epsilon: Seq<[i128; 3]>, tau: Seq<[usize; 4]>, phi: Seq<int>|
            product_explored(children, tuples, epsilon, tau) && quotient_by(epsilon, tau, 0, g.bases@, phi)
    }
}

/// The product of the children: a graph whose every base adds up the
/// contributions of one base of each child, explored from the roots and
/// then minimized; its constant is the sum of theirs, and for every pair of
/// operands it describes the sum of what the children describe. Refused
/// without children, when a running total overflows, when more than 256
/// tuples of bases are reached, and when minimizing refuses.
pub fn product_graph(children: &[BaseGraph]) -> (r: Result<BaseGraph, FactorizedSectionRefusal>)
    requires
        children_wf(children@),
    ensures
        product_outcome(children@, r),
        r matches Ok(g) ==> forall|x: u64, y: u64| #[trigger] graph_total(g, x, y) == children_total(
            children@,
            x,
            y,
            children.len() as int,
        ),
{
    if children.len() == 0 {
        return Err(FactorizedSectionRefusal::UnsupportedNode);
    }
    let mut initial: Vec<usize> = Vec::new();
    let mut i: usize = 0;
    while i < children.len()
        invariant
            i <= children.len(),
            initial@ == root_tuple(children@).take(i as int),
        decreases children.len() - i,
    {
        initial.push(children[i].root);
        i += 1;
        assert(initial@ =~= root_tuple(children@).take(i as int));
    }
    assert(initial@ =~= root_tuple(children@));
    assert(tuple_ok(children@, initial@)) by {
        assert forall|k: int| 0 <= k < initial@.len() implies #[trigger] initial@[k] < children@[k].bases@.len() by {
            assert(graph_wf(children@[k]));
        }
    }
    assert(tuple_reached(children@, initial@)) by {
        let w = Seq::<int>::empty();
        assert(is_word(w) && tuple_from(children@, root_tuple(children@), w) == initial@);
    }
    let mut tuples: Vec<Vec<usize>> = Vec::new();
    tuples.push(initial);
    let mut epsilon: Vec<[i128; 3]> = Vec::new();
    let mut tau: Vec<[usize; 4]> = Vec::new();
    let mut head: usize = 0;
    while head < tuples.len()
        invariant
            children.len() > 0,
            children_wf(children@),
            0 < tuples.len(),
            head <= tuples.len() <= 256,
            epsilon.len() == head,
            tau.len() == head,
            tuple_views(tuples@)[0] == root_tuple(children@),
            forall|k: int| 0 <= k < tuples.len() ==> tuple_ok(children@, #[trigger] tuple_views(tuples@)[k]),
            forall|k: int| 0 <= k < tuples.len() ==> tuple_reached(children@, #[trigger] tuple_views(tuples@)[k]),
            forall|j: int, k: int|
                0 <= j < tuples.len() && 0 <= k < tuples.len() && j != k ==> #[trigger] tuple_views(tuples@)[j]
                    != #[trigger] tuple_views(tuples@)[k],
            forall|k: int, a: int|
                0 <= k < head && 0 <= a < 3 ==> #[trigger] epsilon@[k]@[a] == eps_sum(
                    children@,
                    tuple_views(tuples@)[k],
                    a + 1,
                    children.len() as int,
                ),
            forall|k: int, a: int|
                0 <= k < head && 0 <= a < 4 ==> #[trigger] tau@[k]@[a] < tuples.len() && tuple_views(tuples@)[tau@[k]@[a] as int]
                    == step_tuple(children@, tuple_views(tuples@)[k], a),
        decreases 256 - head,
    {
        let tuple = tuples[head].clone();
        assert(tuple@ =~= tuple_views(tuples@)[head as int]);
        let ghost before = tuple_views(tuples@);
        let mut sums: [i128; 4] = [0; 4];
        let mut next: [usize; 4] = [0; 4];
        let mut symbol: usize = 0;
        while symbol < 4
            invariant
                children.len() > 0,
                children_wf(children@),
                head < tuples.len() <= 256,
                tuple@ == tuple_views(tuples@)[head as int],
                tuple_ok(children@, tuple@),
                tuple_views(tuples@).take(before.len() as int) == before,
                before.len() <= tuples.len(),
                tuple_views(tuples@)[0] == root_tuple(children@),
                forall|k: int| 0 <= k < tuples.len() ==> tuple_ok(children@, #[trigger] tuple_views(tuples@)[k]),
                forall|k: int| 0 <= k < tuples.len() ==> tuple_reached(children@, #[trigger] tuple_views(tuples@)[k]),
                forall|j: int, k: int|
                    0 <= j < tuples.len() && 0 <= k < tuples.len() && j != k ==> #[trigger] tuple_views(tuples@)[j]
                        != #[trigger] tuple_views(tuples@)[k],
                forall|a: int| 0 <= a < symbol ==> #[trigger] sums@[a] == eps_sum(children@, tuple@, a, children.len() as int),
                forall|a: int|
                    0 <= a < symbol ==> #[trigger] next@[a] < tuples.len() && tuple_views(tuples@)[next@[a] as int]
                        == step_tuple(children@, tuple@, a),
            decreases 4 - symbol,
        {
            let (sum, dest) = match combine(children, &tuple, symbol) {
                Ok(v) => v,
                Err(e) => {
                    proof {
                        assert(tuple_reached(children@, tuple@));
                        assert(!sums_fit(children@, tuple@, symbol as int, children.len() as int));
                        assert(product_overflows(children@));
                    }
                    return Err(e);
                },
            };
            proof {
                lemma_tuple_reached_step(children@, tuple@, symbol as int);
            }
            let id = match find_tuple(&tuples, &dest) {
                Some(k) => k,
                None => {
                    if tuples.len() >= 256 {
                        proof {
                            let ts = tuple_views(tuples@).push(dest@);
                            assert(ts.len() == 257);
                            assert forall|k: int| 0 <= k < 257 implies tuple_reached(children@, #[trigger] ts[k]) by {
                                if k < 256 {
                                    assert(ts[k] == tuple_views(tuples@)[k]);
                                }
                            }
                            assert forall|j: int, k: int| 0 <= j < 257 && 0 <= k < 257 && j != k implies #[trigger] ts[j]
                                != #[trigger] ts[k] by {
                                if j < 256 && k < 256 {
                                    assert(ts[j] == tuple_views(tuples@)[j]);
                                    assert(ts[k] == tuple_views(tuples@)[k]);
                                } else if j < 256 {
                                    assert(tuples@[j]@ != dest@);
                                } else {
                                    assert(tuples@[k]@ != dest@);
                                }
                            }
                            assert(product_too_large(children@));
                        }
                        return Err(FactorizedSectionRefusal::SourceBudgetExceeded);
                    }
                    let k = tuples.len();
                    let ghost old_views = tuple_views(tuples@);
                    tuples.push(dest);
                    proof {
                        assert(tuple_views(tuples@) =~= old_views.push(step_tuple(children@, tuple@, symbol as int)));
                        assert forall|j: int, m: int|
                            0 <= j < tuples.len() && 0 <= m < tuples.len() && j != m implies #[trigger] tuple_views(tuples@)[j]
                                != #[trigger] tuple_views(tuples@)[m] by {
                            if j < k && m < k {
                                assert(old_views[j] != old_views[m]);
                            } else if j < k {
                                assert(tuples@[j]@ != step_tuple(children@, tuple@, symbol as int));
                            } else {
                                assert(tuples@[m]@ != step_tuple(children@, tuple@, symbol as int));
                            }
                        }
                        assert(tuple_views(tuples@).take(before.len() as int) =~= before) by {
                            assert(old_views.take(before.len() as int) == before);
                        }
                    }
                    k
                },
            };
            sums[symbol] = sum;
            next[symbol] = id;
            symbol += 1;
        }
        let row_epsilon = [sums[1], sums[2], sums[3]];
        epsilon.push(row_epsilon);
        tau.push(next);
        proof {
            assert forall|k: int, a: int|
                0 <= k < head + 1 && 0 <= a < 3 implies #[trigger] epsilon@[k]@[a] == eps_sum(
                    children@,
                    tuple_views(tuples@)[k],
                    a + 1,
                    children.len() as int,
                ) by {
                if k < head {
                    assert(tuple_views(tuples@)[k] == before[k]);
                }
            }
            assert forall|k: int, a: int|
                0 <= k < head + 1 && 0 <= a < 4 implies #[trigger] tau@[k]@[a] < tuples.len() && tuple_views(
                    tuples@,
                )[tau@[k]@[a] as int] == step_tuple(children@, tuple_views(tuples@)[k], a) by {
                if k < head {
                    assert(tuple_views(tuples@)[k] == before[k]);
                    assert(tuple_views(tuples@)[tau@[k]@[a] as int] == before[tau@[k]@[a] as int]);
                }
            }
        }
        head += 1;
    }
    let r0 = match sum_r0(children) {
        Ok(v) => v,
        Err(e) => {
            return Err(e);
        },
    };
    proof {
        assert(transitions_in(tau@, epsilon@.len())) by {
            assert forall|s: int, sym: int| 0 <= s < tau@.len() && 0 <= sym < 4 implies #[trigger] tau@[s]@[sym]
                < epsilon@.len() by {
                assert(tau@[s]@[sym] < tuples.len());
            }
        }
    }
    proof {
        assert(product_explored(children@, tuple_views(tuples@), epsilon@, tau@));
        lemma_explored_all_reached(children@, tuple_views(tuples@), epsilon@, tau@);
    }
    let minimized = minimize_bases(&epsilon, &tau, 0);
    let (bases, root) = match minimized {
        Ok(v) => v,
        Err(e) => {
            proof {
                assert(has_distinct_states(epsilon@, tau@, 65));
                assert(product_too_large(children@));
            }
            return Err(e);
        },
    };
    let ghost bv = bases@;
    let ghost phi = choose|phi: Seq<int>| quotient_by(epsilon@, tau@, 0, bv, phi);
    assert(quotient_by(epsilon@, tau@, 0, bv, phi));
    let g = BaseGraph { bases, root, r0 };
    proof {
        assert(g.bases@ == bv);
        assert(g.root == 0);
        assert(g.r0 == r0_sum(children@, children.len() as int));
        assert(canon(base_walk(g.bases@)).0 == base_walk(g.bases@));
        assert(product_explored(children@, tuple_views(tuples@), epsilon@, tau@) && quotient_by(
            epsilon@,
            tau@,
            0,
            g.bases@,
            phi,
        ));
        lemma_product_total(children@, tuple_views(tuples@), epsilon@, tau@, phi, g);
        if product_beyond_budget(children@) {
            let ts = choose|ts: Seq<Seq<usize>>|
                #![trigger ts.len()]
                ts.len() == 257 && (forall|k: int| 0 <= k < 257 ==> tuple_reached(children@, #[trigger] ts[k])) && (
                forall|j: int, k: int| 0 <= j < 257 && 0 <= k < 257 && j != k ==> #[trigger] ts[j] != #[trigger] ts[k]);
            lemma_explored_bound(children@, tuple_views(tuples@), epsilon@, tau@, ts);
        }
    }
    Ok(g)
}

/// The constant and the symbol contributions of a graph of one base.
#[derive(Clone, Copy, Debug, PartialEq, Eq)]
pub struct SectionScalars {
    pub r0: i128,
    pub epsilon: [i128; 4],
}

/// The scalars of a graph made of its root alone; refused for any other
/// graph.
pub fn normalize_scalars(graph: BaseGraph) -> (r: Result<SectionScalars, FactorizedSectionRefusal>)
    ensures
        (graph.bases@.len() == 1 && graph.root == 0) ==> r == Ok::<SectionScalars, FactorizedSectionRefusal>(
            SectionScalars {
                r0: graph.r0,
                epsilon: [
                    0i128,
                    graph.bases@[0].epsilon_nonzero[0],
                    graph.bases@[0].epsilon_nonzero[1],
                    graph.bases@[0].epsilon_nonzero[2],
                ],
            },
        ),
        !(graph.bases@.len() == 1 && graph.root == 0) ==> r == Err::<SectionScalars, FactorizedSectionRefusal>(
            FactorizedSectionRefusal::MultipleSemanticBases,
        ),
{
    if graph.bases.len() != 1 || graph.root != 0 {
        return Err(FactorizedSectionRefusal::MultipleSemanticBases);
    }
    let base = &graph.bases[0];
    Ok(SectionScalars {
        r0: graph.r0,
        epsilon: [0, base.epsilon_nonzero[0], base.epsilon_nonzero[1], base.epsilon_nonzero[2]],
    })
}

/// A one-base description: the constant and the contributions of symbols 1 to 3.
pub type OneBaseKey = (i128, [i128; 3]);

/// The one-base description of a stationary bit table: the constant is
/// minus the output on symbol 0, and each other symbol contributes its
/// output minus that one.
pub fn one_base_from_table(table: [u8; 4]) -> (r: OneBaseKey)
    ensures
        r.0 == -(table[0] as int),
        forall|i: int| 0 <= i < 3 ==> #[trigger] r.1[i] == table[i + 1] as int - table[0] as int,
{
    let t0 = table[0] as i128;
    (-t0, [table[1] as i128 - t0, table[2] as i128 - t0, table[3] as i128 - t0])
}

/// The description of the sum of two one-base sections; refused on overflow.
pub fn one_base_add(left: OneBaseKey, right: OneBaseKey) -> (r: Result<OneBaseKey, FactorizedSectionRefusal>)
    ensures
        (fits_i128(left.0 + right.0) && forall|i: int| 0 <= i < 3 ==> fits_i128(#[trigger] left.1[i] + right.1[i]))
            ==> (r matches Ok(k) && k.0 == left.0 + right.0 && forall|i: int| 0 <= i < 3 ==> #[trigger] k.1[i]
            == left.1[i] + right.1[i]),
        !(fits_i128(left.0 + right.0) && forall|i: int| 0 <= i < 3 ==> fits_i128(#[trigger] left.1[i] + right.1[i]))
            ==> r == Err::<OneBaseKey, FactorizedSectionRefusal>(FactorizedSectionRefusal::ArithmeticOverflow),
{
    let mut epsilon: [i128; 3] = [0; 3];
    let mut i: usize = 0;
    while i < 3
        invariant
            i <= 3,
            forall|j: int| 0 <= j < i ==> fits_i128(#[trigger] left.1[j] + right.1[j]) && epsilon[j] == left.1[j]
                + right.1[j],
        decreases 3 - i,
    {
        match left.1[i].checked_add(right.1[i]) {
            Some(v) => {
                epsilon[i] = v;
            },
            None => {
                return Err(FactorizedSectionRefusal::ArithmeticOverflow);
            },
        }
        i += 1;
    }
    match left.0.checked_add(right.0) {
        Some(r0) => Ok((r0, epsilon)),
        None => Err(FactorizedSectionRefusal::ArithmeticOverflow),
    }
}

/// The description of a one-base section multiplied by `coefficient`;
/// refused on overflow.
pub fn one_base_scale(key: OneBaseKey, coefficient: i128) -> (r: Result<OneBaseKey, FactorizedSectionRefusal>)
    ensures
        (fits_i128(key.0 * coefficient) && forall|i: int| 0 <= i < 3 ==> fits_i128(#[trigger] key.1[i] * coefficient))
            ==> (r matches Ok(k) && k.0 == key.0 * coefficient && forall|i: int| 0 <= i < 3 ==> #[trigger] k.1[i]
            == key.1[i] * coefficient),
        !(fits_i128(key.0 * coefficient) && forall|i: int| 0 <= i < 3 ==> fits_i128(#[trigger] key.1[i] * coefficient))
            ==> r == Err::<OneBaseKey, FactorizedSectionRefusal>(FactorizedSectionRefusal::ArithmeticOverflow),
{
    let r0 = match key.0.checked_mul(coefficient) {
        Some(v) => v,
        None => {
            return Err(FactorizedSectionRefusal::ArithmeticOverflow);
        },
    };
    let mut epsilon: [i128; 3] = [0; 3];
    let mut i: usize = 0;
    while i < 3
        invariant
            i <= 3,
            forall|j: int| 0 <= j < i ==> fits_i128(#[trigger] key.1[j] * coefficient) && epsilon[j] == key.1[j]
                * coefficient,
        decreases 3 - i,
    {
        match key.1[i].checked_mul(coefficient) {
            Some(v) => {
                epsilon[i] = v;
            },
            None => {
                return Err(FactorizedSectionRefusal::ArithmeticOverflow);
            },
        }
        i += 1;
    }
    Ok((r0, epsilon))
}

/// The description of the complement of a one-base section: `-1 - r0` and
/// negated contributions; refused on overflow.
pub fn one_base_not(key: OneBaseKey) -> (r: Result<OneBaseKey, FactorizedSectionRefusal>)
    ensures
        (fits_i128(-1 - key.0) && forall|i: int| 0 <= i < 3 ==> fits_i128(-(#[trigger] key.1[i])))
            ==> (r matches Ok(k) && k.0 == -1 - key.0 && forall|i: int| 0 <= i < 3 ==> #[trigger] k.1[i] == -key.1[i]),
        !(fits_i128(-1 - key.0) && forall|i: int| 0 <= i < 3 ==> fits_i128(-(#[trigger] key.1[i]))) ==> r == Err::<
            OneBaseKey,
            FactorizedSectionRefusal,
        >(FactorizedSectionRefusal::ArithmeticOverflow),
{
    let r0 = match (-1i128).checked_sub(key.0) {
        Some(v) => v,
        None => {
            return Err(FactorizedSectionRefusal::ArithmeticOverflow);
        },
    };
    let mut epsilon: [i128; 3] = [0; 3];
    let mut i: usize = 0;
    while i < 3
        invariant
            i <= 3,
            forall|j: int| 0 <= j < i ==> fits_i128(-(#[trigger] key.1[j])) && epsilon[j] == -key.1[j],
        decreases 3 - i,
    {
        if key.1[i] == i128::MIN {
            return Err(FactorizedSectionRefusal::ArithmeticOverflow);
        }
        epsilon[i] = -key.1[i];
        i += 1;
    }
    Ok((r0, epsilon))
}

/// What the direct one-base compiler knows of a subexpression: a stationary
/// bit table over the four symbols, an exact one-base description, or
/// nothing.
#[derive(Clone, Copy, Debug, PartialEq, Eq)]
pub enum OneBasePartial {
    Stationary([u8; 4]),
    Exact { r0: i128, epsilon: [i128; 3] },
    Unknown,
}

/// The one-base description of a partial result, when it has one.
pub fn one_base_key(value: OneBasePartial) -> (r: Option<OneBaseKey>)
    ensures
        match value {
            OneBasePartial::Stationary(table) => (r matches Some(k) && k.0 == -(table[0] as int) && forall|i: int|
                0 <= i < 3 ==> #[trigger] k.1[i] == table[i + 1] as int - table[0] as int),
            OneBasePartial::Exact { r0, epsilon } => r == Some((r0, epsilon)),
            OneBasePartial::Unknown => r is None,
        },
{
    match value {
        OneBasePartial::Stationary(table) => Some(one_base_from_table(table)),
        OneBasePartial::Exact { r0, epsilon } => Some((r0, epsilon)),
        OneBasePartial::Unknown => None,
    }
}

/// The one-base description of a graph that is a single base looping on
/// itself at the root.
pub fn graph_one_base_key(graph: &BaseGraph) -> (r: Option<OneBaseKey>)
    ensures
        (graph.root == 0 && graph.bases@.len() == 1 && stays_at_root(graph.bases@[0])) ==> r == Some(
            (graph.r0, graph.bases@[0].epsilon_nonzero),
        ),
        !(graph.root == 0 && graph.bases@.len() == 1 && stays_at_root(graph.bases@[0])) ==> r is None,
{
    if graph.root == 0 && graph.bases.len() == 1 {
        let t = graph.bases[0].tau;
        if t[0] == 0 && t[1] == 0 && t[2] == 0 && t[3] == 0 {
            return Some((graph.r0, graph.bases[0].epsilon_nonzero));
        }
    }
    None
}

/// Every symbol leads `b` to base 0.
pub open spec fn stays_at_root(b: Base) -> bool {
    forall|s: int| 0 <= s < 4 ==> #[trigger] b.tau@[s] == 0
}

/// `st` holds one cursor for each child, on one of its bases.
pub open spec fn cursors_ok(children: Seq<BaseGraph>, st: Seq<DigitCursor>) -> bool {
    &&& st.len() == children.len()
    &&& forall|i: int| 0 <= i < st.len() ==> #[trigger] st[i].base < children[i].bases@.len()
}

/// Every child reads `symbol` from its cursor without overflow.
#[verifier::opaque]
pub open spec fn step_ok(children: Seq<BaseGraph>, st: Seq<DigitCursor>, symbol: int) -> bool {
    forall|i: int| 0 <= i < st.len() ==> #[trigger] advance_spec(children[i], st[i], symbol) is Ok
}

/// The cursors after each child reads `symbol`.
pub open spec fn step_cursors(children: Seq<BaseGraph>, st: Seq<DigitCursor>, symbol: int) -> Seq<DigitCursor> {
    Seq::new(st.len(), |i: int| advance_spec(children[i], st[i], symbol)->Ok_0.1)
}

/// The bits the children output on reading `symbol`.
pub open spec fn step_bits(children: Seq<BaseGraph>, st: Seq<DigitCursor>, symbol: int) -> Seq<u8> {
    Seq::new(st.len(), |i: int| advance_spec(children[i], st[i], symbol)->Ok_0.0)
}

/// The cursors of the children at their roots, carrying their constants.
pub open spec fn initial_cursors(children: Seq<BaseGraph>) -> Seq<DigitCursor> {
    Seq::new(children.len(), |i: int| DigitCursor { base: children[i].root, carry: children[i].r0 })
}

/// The contribution of `symbol` in the combined state `st`: the output bit,
/// plus twice the response of the next state, minus the response of `st`.
pub open spec fn bitwise_epsilon(op: BitwiseOperation, children: Seq<BaseGraph>, st: Seq<DigitCursor>, symbol: int) -> int {
    fold_bits(op, step_bits(children, st, symbol)) as int + 2 * fold_carries(op, step_cursors(children, st, symbol))
        - fold_carries(op, st)
}

/// The bitwise combination as explored: distinct combined states from the
/// initial cursors, each reading every symbol without overflow, with its
/// contributions and the state each symbol leads to; symbol 0 contributes
/// nothing.
pub open spec fn bitwise_explored(
    op: BitwiseOperation,
    children: Seq<BaseGraph>,
    states: Seq<Seq<DigitCursor>>,
    epsilon: Seq<[i128; 3]>,
    tau: Seq<[usize; 4]>,
) -> bool {
    &&& states.len() == epsilon.len() == tau.len()
    &&& states.len() > 0
    &&& states[0] == initial_cursors(children)
    &&& forall|k: int| 0 <= k < states.len() ==> cursors_ok(children, #[trigger] states[k])
    &&& forall|j: int, k: int| 0 <= j < states.len() && 0 <= k < states.len() && j != k ==> #[trigger] states[j]
        != #[trigger] states[k]
    &&& forall|k: int, a: int|
        0 <= k < states.len() && 0 <= a < 4 ==> #[trigger] step_ok(children, states[k], a)
    &&& forall|k: int, a: int|
        0 <= k < states.len() && 0 <= a < 4 ==> #[trigger] tau[k]@[a] < states.len() && states[tau[k]@[a] as int]
            == step_cursors(children, states[k], a)
    &&& forall|k: int, a: int|
        0 <= k < states.len() && 0 <= a < 3 ==> #[trigger] epsilon[k]@[a] == bitwise_epsilon(op, children, states[k], a + 1)
    &&& forall|k: int| 0 <= k < states.len() ==> bitwise_epsilon(op, children, #[trigger] states[k], 0) == 0
}

/// The bits and cursors after each child reads `symbol`; refused when a
/// carry overflows.
fn advance_all(children: &[BaseGraph], state: &Vec<DigitCursor>, symbol: usize) -> (r: Result<
    (Vec<u8>, Vec<DigitCursor>),
    FactorizedSectionRefusal,
>)
    requires
        symbol < 4,
        children_wf(children@),
        cursors_ok(children@, state@),
    ensures
        step_ok(children@, state@, symbol as int) ==> r is Ok,
        r matches Ok((bits, next)) ==> step_ok(children@, state@, symbol as int) && bits@ == step_bits(
            children@,
            state@,
            symbol as int,
        ) && next@ == step_cursors(children@, state@, symbol as int) && cursors_ok(children@, next@),
        r is Err ==> r == Err::<(Vec<u8>, Vec<DigitCursor>), _>(FactorizedSectionRefusal::ArithmeticOverflow),
{
    reveal(step_ok);
    let mut bits: Vec<u8> = Vec::new();
    let mut next: Vec<DigitCursor> = Vec::new();
    let mut i: usize = 0;
    while i < children.len()
        invariant
            i <= children.len() == state.len(),
            symbol < 4,
            children_wf(children@),
            cursors_ok(children@, state@),
            forall|j: int| 0 <= j < i ==> #[trigger] advance_spec(children@[j], state@[j], symbol as int) is Ok,
            bits@ == step_bits(children@, state@, symbol as int).take(i as int),
            next@ == step_cursors(children@, state@, symbol as int).take(i as int),
        decreases children.len() - i,
    {
        assert(graph_wf(children@[i as int]));
        assert(state@[i as int].base < children@[i as int].bases@.len());
        match advance_digit(&children[i], state[i], symbol) {
            Ok((bit, cursor)) => {
                bits.push(bit);
                next.push(cursor);
            },
            Err(e) => {
                proof {
                    assert(!(advance_spec(children@[i as int], state@[i as int], symbol as int) is Ok));
                    reveal(step_ok);
                    assert(!step_ok(children@, state@, symbol as int));
                }
                return Err(FactorizedSectionRefusal::ArithmeticOverflow);
            },
        }
        i += 1;
        assert(bits@ =~= step_bits(children@, state@, symbol as int).take(i as int));
        assert(next@ =~= step_cursors(children@, state@, symbol as int).take(i as int));
    }
    assert(bits@ =~= step_bits(children@, state@, symbol as int));
    assert(next@ =~= step_cursors(children@, state@, symbol as int));
    assert forall|j: int| 0 <= j < next@.len() implies #[trigger] next@[j].base < children@[j].bases@.len() by {
        assert(graph_wf(children@[j]));
        assert(state@[j].base < children@[j].bases@.len());
    }
    Ok((bits, next))
}

/// Whether two combined states are equal.
fn same_cursors(a: &Vec<DigitCursor>, b: &Vec<DigitCursor>) -> (r: bool)
    ensures
        r == (a@ == b@),
{
    if a.len() != b.len() {
        return false;
    }
    let mut i: usize = 0;
    while i < a.len()
        invariant
            i <= a.len() == b.len(),
            forall|j: int| 0 <= j < i ==> a@[j] == b@[j],
        decreases a.len() - i,
    {
        if a[i].base != b[i].base || a[i].carry != b[i].carry {
            return false;
        }
        i += 1;
    }
    assert(a@ =~= b@);
    true
}

/// The views of a list of combined states.
pub open spec fn state_views(states: Seq<Vec<DigitCursor>>) -> Seq<Seq<DigitCursor>> {
    Seq::new(states.len(), |k: int| states[k]@)
}

/// The position of `st` among `states`.
fn find_state(states: &Vec<Vec<DigitCursor>>, st: &Vec<DigitCursor>) -> (r: Option<usize>)
    ensures
        r matches Some(k) ==> k < states.len() && states@[k as int]@ == st@,
        r is None ==> forall|k: int| 0 <= k < states.len() ==> #[trigger] states@[k]@ != st@,
{
    let mut k: usize = 0;
    while k < states.len()
        invariant
            k <= states.len(),
            forall|j: int| 0 <= j < k ==> #[trigger] states@[j]@ != st@,
        decreases states.len() - k,
    {
        if same_cursors(&states[k], st) {
            return Some(k);
        }
        k += 1;
    }
    None
}

/// The contribution `output + 2 * next - current`; refused on overflow.
fn epsilon_value(output: u8, next: i128, current: i128) -> (r: Result<i128, FactorizedSectionRefusal>)
    ensures
        (fits_i128(2 * next) && fits_i128(output + 2 * next) && fits_i128(output + 2 * next - current)) ==> r
            == Ok::<i128, FactorizedSectionRefusal>((output + 2 * next - current) as i128),
        !(fits_i128(2 * next) && fits_i128(output + 2 * next) && fits_i128(output + 2 * next - current)) ==> r
            == Err::<i128, FactorizedSectionRefusal>(FactorizedSectionRefusal::ArithmeticOverflow),
{
    let doubled = match next.checked_mul(2) {
        Some(v) => v,
        None => {
            return Err(FactorizedSectionRefusal::ArithmeticOverflow);
        },
    };
    let with_output = match (output as i128).checked_add(doubled) {
        Some(v) => v,
        None => {
            return Err(FactorizedSectionRefusal::ArithmeticOverflow);
        },
    };
    match with_output.checked_sub(current) {
        Some(v) => Ok(v),
        None => Err(FactorizedSectionRefusal::ArithmeticOverflow),
    }
}

/// The combined state that reading the word `w` leads `st` to.
pub open spec fn state_from(children: Seq<BaseGraph>, st: Seq<DigitCursor>, w: Seq<int>) -> Seq<DigitCursor>
    decreases w.len(),
{
    if w.len() == 0 {
        st
    } else {
        state_from(children, step_cursors(children, st, w[0]), w.drop_first())
    }
}

/// Every child reads every symbol of `w` from `st` on without overflow.
pub open spec fn path_ok(children: Seq<BaseGraph>, st: Seq<DigitCursor>, w: Seq<int>) -> bool
    decreases w.len(),
{
    w.len() == 0 || (step_ok(children, st, w[0]) && path_ok(children, step_cursors(children, st, w[0]), w.drop_first()))
}

/// Some word, read without overflow, leads the children from their initial
/// cursors to the combined state `st`.
pub open spec fn state_reached(children: Seq<BaseGraph>, st: Seq<DigitCursor>) -> bool {
    exists|w: Seq<int>|
        #[trigger] is_word(w) && path_ok(children, initial_cursors(children), w) && state_from(
            children,
            initial_cursors(children),
            w,
        ) == st
}

/// Reading one more symbol steps the combined state once more.
proof fn lemma_state_from_push(children: Seq<BaseGraph>, st: Seq<DigitCursor>, w: Seq<int>, a: int)
    ensures
        state_from(children, st, w.push(a)) == step_cursors(children, state_from(children, st, w), a),
        path_ok(children, st, w) && step_ok(children, state_from(children, st, w), a) ==> path_ok(
            children,
            st,
            w.push(a),
        ),
    decreases w.len(),
{
    if w.len() > 0 {
        let st1 = step_cursors(children, st, w[0]);
        assert(w.push(a).drop_first() =~= w.drop_first().push(a));
        assert(w.push(a)[0] == w[0]);
        lemma_state_from_push(children, st1, w.drop_first(), a);
        assert(state_from(children, st, w.push(a)) == state_from(children, st1, w.drop_first().push(a)));
    } else {
        let e = Seq::<int>::empty();
        let st1 = step_cursors(children, st, a);
        assert(w.push(a).drop_first() =~= e);
        assert(w.push(a)[0] == a);
        assert(state_from(children, st1, e) == st1);
        assert(state_from(children, st, w.push(a)) == state_from(children, st1, e));
        assert(path_ok(children, st1, e));
    }
}

/// A state one symbol past a reached state, read without overflow, is
/// reached.
proof fn lemma_state_reached_step(children: Seq<BaseGraph>, st: Seq<DigitCursor>, a: int)
    requires
        state_reached(children, st),
        step_ok(children, st, a),
        0 <= a < 4,
    ensures
        state_reached(children, step_cursors(children, st, a)),
{
    let init = initial_cursors(children);
    let w = choose|w: Seq<int>|
        #[trigger] is_word(w) && path_ok(children, init, w) && state_from(children, init, w) == st;
    lemma_state_from_push(children, init, w, a);
    lemma_word_push(w, a);
    assert(is_word(w.push(a)) && path_ok(children, init, w.push(a)) && state_from(children, init, w.push(a))
        == step_cursors(children, st, a));
}

/// The explored transitions follow the combined states: a word read from
/// state `k` ends on the state it leads `states[k]` to.
proof fn lemma_bitwise_explored_run(
    op: BitwiseOperation,
    children: Seq<BaseGraph>,
    states: Seq<Seq<DigitCursor>>,
    epsilon: Seq<[i128; 3]>,
    tau: Seq<[usize; 4]>,
    k: int,
    w: Seq<int>,
)
    requires
        bitwise_explored(op, children, states, epsilon, tau),
        0 <= k < states.len(),
        is_word(w),
    ensures
        0 <= run(tau, k, w) < states.len(),
        states[run(tau, k, w)] == state_from(children, states[k], w),
    decreases w.len(),
{
    if w.len() > 0 {
        let next = tau[k]@[w[0]] as int;
        assert(0 <= w[0] < 4);
        assert(states[next] == step_cursors(children, states[k], w[0]));
        assert(is_word(w.drop_first())) by {
            assert forall|i: int| 0 <= i < w.drop_first().len() implies 0 <= #[trigger] w.drop_first()[i] < 4 by {
                assert(w.drop_first()[i] == w[i + 1]);
            }
        }
        lemma_bitwise_explored_run(op, children, states, epsilon, tau, next, w.drop_first());
    }
}

/// When every explored state is reached from the initial cursors, every
/// state of the explored graph is reached from state 0.
proof fn lemma_bitwise_all_reached(
    op: BitwiseOperation,
    children: Seq<BaseGraph>,
    states: Seq<Seq<DigitCursor>>,
    epsilon: Seq<[i128; 3]>,
    tau: Seq<[usize; 4]>,
)
    requires
        bitwise_explored(op, children, states, epsilon, tau),
        forall|k: int| 0 <= k < states.len() ==> state_reached(children, #[trigger] states[k]),
    ensures
        all_reached(epsilon, tau, 0),
{
    assert forall|s: int| 0 <= s < epsilon.len() implies #[trigger] reaches(epsilon, tau, 0, s) by {
        assert(state_reached(children, states[s]));
        let init = initial_cursors(children);
        let w = choose|w: Seq<int>|
            #[trigger] is_word(w) && path_ok(children, init, w) && state_from(children, init, w) == states[s];
        lemma_bitwise_explored_run(op, children, states, epsilon, tau, 0, w);
        assert(run(tau, 0, w) == s);
        assert(equivalent(epsilon, tau, run(tau, 0, w), s));
    }
}

/// The contribution of `symbol` in `st` fits every step of its computation.
pub open spec fn epsilon_fits(op: BitwiseOperation, children: Seq<BaseGraph>, st: Seq<DigitCursor>, symbol: int) -> bool {
    let output = fold_bits(op, step_bits(children, st, symbol)) as int;
    let next = fold_carries(op, step_cursors(children, st, symbol)) as int;
    &&& fits_i128(2 * next)
    &&& fits_i128(output + 2 * next)
    &&& fits_i128(output + 2 * next - fold_carries(op, st))
}

/// In some reached state, a child's carry overflows on some symbol, or the
/// contribution of a symbol does not fit.
pub open spec fn bitwise_overflows(op: BitwiseOperation, children: Seq<BaseGraph>) -> bool {
    exists|st: Seq<DigitCursor>, a: int|
        #![trigger state_reached(children, st), step_ok(children, st, a)]
        state_reached(children, st) && 0 <= a < 4 && (!step_ok(children, st, a) || !epsilon_fits(
            op,
            children,
            st,
            a,
        ))
}

/// In some reached state, symbol 0 would contribute.
pub open spec fn bitwise_gauge_broken(op: BitwiseOperation, children: Seq<BaseGraph>) -> bool {
    exists|st: Seq<DigitCursor>|
        #[trigger] state_reached(children, st) && step_ok(children, st, 0) && epsilon_fits(op, children, st, 0)
            && bitwise_epsilon(op, children, st, 0) != 0
}

/// The children reach more than 256 combined states.
pub open spec fn bitwise_beyond_budget(children: Seq<BaseGraph>) -> bool {
    exists|sts: Seq<Seq<DigitCursor>>|
        #![trigger sts.len()]
        sts.len() == 257 && (forall|k: int| 0 <= k < 257 ==> state_reached(children, #[trigger] sts[k])) && (forall|
            j: int,
            k: int,
        | 0 <= j < 257 && 0 <= k < 257 && j != k ==> #[trigger] sts[j] != #[trigger] sts[k])
}

/// Distinct reached states are as many as explored states at most: each is
/// the state its word leads to.
proof fn lemma_bitwise_explored_bound(
    op: BitwiseOperation,
    children: Seq<BaseGraph>,
    states: Seq<Seq<DigitCursor>>,
    epsilon: Seq<[i128; 3]>,
    tau: Seq<[usize; 4]>,
    sts: Seq<Seq<DigitCursor>>,
)
    requires
        bitwise_explored(op, children, states, epsilon, tau),
        states.len() <= 256,
        forall|k: int| 0 <= k < sts.len() ==> state_reached(children, #[trigger] sts[k]),
        forall|j: int, k: int| 0 <= j < sts.len() && 0 <= k < sts.len() && j != k ==> #[trigger] sts[j] != #[trigger] sts[k],
    ensures
        sts.len() <= states.len(),
{
    let init = initial_cursors(children);
    let idx = Seq::new(
        sts.len(),
        |i: int|
            run(
                tau,
                0,
                choose|w: Seq<int>| #[trigger] is_word(w) && path_ok(children, init, w) && state_from(children, init, w) == sts[i],
            ) as usize,
    );
    assert forall|i: int| 0 <= i < sts.len() implies #[trigger] idx[i] < states.len() && states[idx[i] as int] == sts[i] by {
        assert(state_reached(children, sts[i]));
        let w = choose|w: Seq<int>| #[trigger] is_word(w) && path_ok(children, init, w) && state_from(children, init, w) == sts[i];
        lemma_bitwise_explored_run(op, children, states, epsilon, tau, 0, w);
        assert(idx[i] as int == run(tau, 0, w));
    }
    assert(idx.no_duplicates()) by {
        assert forall|i: int, j: int| 0 <= i < idx.len() && 0 <= j < idx.len() && i != j implies idx[i] != idx[j] by {
            assert(states[idx[i] as int] == sts[i]);
            assert(states[idx[j] as int] == sts[j]);
        }
    }
    lemma_distinct_below(idx, states.len() as int);
}

/// The combination is too large to describe: the children reach more than
/// 256 combined states, or the explored graph has more than 64 inequivalent
/// states.
pub open spec fn bitwise_too_large(op: BitwiseOperation, children: Seq<BaseGraph>) -> bool {
    ||| bitwise_beyond_budget(children)
    ||| exists|states: Seq<Seq<DigitCursor>>, epsilon: Seq<[i128; 3]>, tau: Seq<[usize; 4]>|
        bitwise_explored(op, children, states, epsilon, tau) && has_distinct_states(epsilon, tau, 65)
}

/// What combining the sections of `children` bit by bit gives: refused for
/// an overflow only when a reached state overflows, for the gauge only when
/// symbol 0 would contribute in a reached state, and over budget only when
/// too many states or classes arise; never a graph when more than 256
/// states are reached. A graph's bases are the explored cursor states,
/// minimized and numbered in walk order.
pub open spec fn bitwise_outcome(
    operation: BitwiseOperation,
    children: Seq<BaseGraph>,
    r: Result<BaseGraph, FactorizedSectionRefusal>,
) -> bool {
    &&& r is Err ==> r == Err::<BaseGraph, _>(FactorizedSectionRefusal::ArithmeticOverflow) || r == Err::<
        BaseGraph,
        _,
    >(FactorizedSectionRefusal::SourceBudgetExceeded) || r == Err::<BaseGraph, _>(
        FactorizedSectionRefusal::InternalGaugeViolation,
    )
    &&& r == Err::<BaseGraph, _>(FactorizedSectionRefusal::ArithmeticOverflow) ==> bitwise_overflows(operation, children)
    &&& r == Err::<BaseGraph, _>(FactorizedSectionRefusal::InternalGaugeViolation) ==> bitwise_gauge_broken(
        operation,
        children,
    )
    &&& r == Err::<BaseGraph, _>(FactorizedSectionRefusal::SourceBudgetExceeded) ==> bitwise_too_large(
        operation,
        children,
    )
    &&& r is Ok ==> !bitwise_beyond_budget(children)
    &&& r matches Ok(g) ==> {
        &&& g.root == 0
        &&& g.bases@.len() <= 64
        &&& g.r0 == fold_carries(operation, initial_cursors(children))
        &&& canon(base_walk(g.bases@)).0 == base_walk(g.bases@)
        &&& exists|states: Seq<Seq<DigitCursor>>, epsilon: Seq<[i128; 3]>, tau: Seq<[usize; 4]>, phi: Seq<int>|
            bitwise_explored(operation, children, states, epsilon, tau) && quotient_by(epsilon, tau, 0, g.bases@, phi)
    }
}

/// The bitwise combination `operation` of the children, read digit by
/// digit: a combined state holds the cursor of every child; each symbol
/// outputs the bit `operation` makes of the children's bits, and the
/// state's contribution keeps the running response (the operation folded
/// over the carries) in step. Explored from the roots, then minimized; the
/// constant is the response of the initial state, and each of the 64 low
/// bits it describes is `operation` folded over the same bit of what the
/// children describe. Refused when a carry or a contribution overflows,
/// when more than 256 states are reached, when symbol 0 would contribute,
/// and when minimizing refuses.
pub fn bitwise_graph(operation: BitwiseOperation, children: &[BaseGraph]) -> (r: Result<
    BaseGraph,
    FactorizedSectionRefusal,
>)
    requires
        children_wf(children@),
    ensures
        bitwise_outcome(operation, children@, r),
        r matches Ok(g) ==> forall|x: u64, y: u64, i: nat|
            i < 64 ==> #[trigger] int_bit(graph_total(g, x, y), i) == fold_bits(
                operation,
                Seq::new(children.len() as nat, |j: int| int_bit(graph_total(children@[j], x, y), i) as u8),
            ) as int,
{
    let mut initial: Vec<DigitCursor> = Vec::new();
    let mut i: usize = 0;
    while i < children.len()
        invariant
            i <= children.len(),
            initial@ == initial_cursors(children@).take(i as int),
        decreases children.len() - i,
    {
        initial.push(DigitCursor { base: children[i].root, carry: children[i].r0 });
        i += 1;
        assert(initial@ =~= initial_cursors(children@).take(i as int));
    }
    assert(initial@ =~= initial_cursors(children@));
    assert(cursors_ok(children@, initial@)) by {
        assert forall|k: int| 0 <= k < initial@.len() implies #[trigger] initial@[k].base < children@[k].bases@.len() by {
            assert(graph_wf(children@[k]));
        }
    }
    assert(state_reached(children@, initial@)) by {
        let w = Seq::<int>::empty();
        assert(is_word(w) && path_ok(children@, initial@, w) && state_from(children@, initial@, w) == initial@);
    }
    let r0 = state_response(operation, initial.as_slice());
    let mut states: Vec<Vec<DigitCursor>> = Vec::new();
    states.push(initial);
    let mut epsilon: Vec<[i128; 3]> = Vec::new();
    let mut tau: Vec<[usize; 4]> = Vec::new();
    let mut head: usize = 0;
    while head < states.len()
        invariant
            children_wf(children@),
            0 < states.len(),
            head <= states.len() <= 256,
            epsilon.len() == head,
            tau.len() == head,
            state_views(states@)[0] == initial_cursors(children@),
            forall|k: int| 0 <= k < states.len() ==> cursors_ok(children@, #[trigger] state_views(states@)[k]),
            forall|k: int| 0 <= k < states.len() ==> state_reached(children@, #[trigger] state_views(states@)[k]),
            forall|j: int, k: int|
                0 <= j < states.len() && 0 <= k < states.len() && j != k ==> #[trigger] state_views(states@)[j]
                    != #[trigger] state_views(states@)[k],
            forall|k: int, a: int|
                0 <= k < head && 0 <= a < 4 ==> #[trigger] step_ok(children@, state_views(states@)[k], a),
            forall|k: int, a: int|
                0 <= k < head && 0 <= a < 4 ==> #[trigger] tau@[k]@[a]
                    < states.len() && state_views(states@)[tau@[k]@[a] as int] == step_cursors(
                    children@,
                    state_views(states@)[k],
                    a,
                ),
            forall|k: int, a: int|
                0 <= k < head && 0 <= a < 3 ==> #[trigger] epsilon@[k]@[a] == bitwise_epsilon(
                    operation,
                    children@,
                    state_views(states@)[k],
                    a + 1,
                ),
            forall|k: int| 0 <= k < head ==> bitwise_epsilon(operation, children@, #[trigger] state_views(states@)[k], 0) == 0,
        decreases 256 - head,
    {
        let state = states[head].clone();
        assert(state@ =~= state_views(states@)[head as int]);
        let ghost before = state_views(states@);
        let current = state_response(operation, state.as_slice());
        let mut sums: [i128; 4] = [0; 4];
        let mut next: [usize; 4] = [0; 4];
        let mut symbol: usize = 0;
        while symbol < 4
            invariant
                children_wf(children@),
                head < states.len() <= 256,
                state@ == state_views(states@)[head as int],
                cursors_ok(children@, state@),
                current == fold_carries(operation, state@),
                state_views(states@).take(before.len() as int) == before,
                before.len() <= states.len(),
                state_views(states@)[0] == initial_cursors(children@),
                forall|k: int| 0 <= k < states.len() ==> cursors_ok(children@, #[trigger] state_views(states@)[k]),
                forall|k: int| 0 <= k < states.len() ==> state_reached(children@, #[trigger] state_views(states@)[k]),
                forall|j: int, k: int|
                    0 <= j < states.len() && 0 <= k < states.len() && j != k ==> #[trigger] state_views(states@)[j]
                        != #[trigger] state_views(states@)[k],
                forall|a: int| 0 <= a < symbol ==> #[trigger] sums@[a] == bitwise_epsilon(operation, children@, state@, a),
                forall|a: int| 0 <= a < symbol ==> #[trigger] step_ok(children@, state@, a),
                forall|a: int|
                    0 <= a < symbol ==> #[trigger] next@[a] < states.len() && state_views(
                        states@,
                    )[next@[a] as int] == step_cursors(children@, state@, a),
                symbol > 0 ==> sums@[0] == 0,
            decreases 4 - symbol,
        {
            let ghost prev_views = state_views(states@);
            let (bits, dest) = match advance_all(children, &state, symbol) {
                Ok(v) => v,
                Err(e) => {
                    proof {
                        assert(state_reached(children@, state@));
                        assert(!step_ok(children@, state@, symbol as int));
                        assert(bitwise_overflows(operation, children@));
                    }
                    return Err(e);
                },
            };
            proof {
                lemma_state_reached_step(children@, state@, symbol as int);
            }
            let output = match operation.apply(bits.as_slice()) {
                Ok(v) => v,
                Err(e) => {
                    return Err(e);
                },
            };
            let dest_response = state_response(operation, dest.as_slice());
            let id = match find_state(&states, &dest) {
                Some(k) => k,
                None => {
                    if states.len() >= 256 {
                        proof {
                            let sts = state_views(states@).push(dest@);
                            assert(sts.len() == 257);
                            assert forall|k: int| 0 <= k < 257 implies state_reached(children@, #[trigger] sts[k]) by {
                                if k < 256 {
                                    assert(sts[k] == state_views(states@)[k]);
                                }
                            }
                            assert forall|j: int, k: int| 0 <= j < 257 && 0 <= k < 257 && j != k implies #[trigger] sts[j]
                                != #[trigger] sts[k] by {
                                if j < 256 && k < 256 {
                                    assert(sts[j] == state_views(states@)[j]);
                                    assert(sts[k] == state_views(states@)[k]);
                                } else if j < 256 {
                                    assert(states@[j]@ != dest@);
                                } else {
                                    assert(states@[k]@ != dest@);
                                }
                            }
                            assert(bitwise_too_large(operation, children@));
                        }
                        return Err(FactorizedSectionRefusal::SourceBudgetExceeded);
                    }
                    let k = states.len();
                    let ghost old_views = state_views(states@);
                    states.push(dest);
                    proof {
                        assert(state_views(states@) =~= old_views.push(step_cursors(children@, state@, symbol as int)));
                        assert forall|j: int, m: int|
                            0 <= j < states.len() && 0 <= m < states.len() && j != m implies #[trigger] state_views(states@)[j]
                                != #[trigger] state_views(states@)[m] by {
                            if j < k && m < k {
                                assert(old_views[j] != old_views[m]);
                            } else if j < k {
                                assert(states@[j]@ != step_cursors(children@, state@, symbol as int));
                            } else {
                                assert(states@[m]@ != step_cursors(children@, state@, symbol as int));
                            }
                        }
                        assert(state_views(states@).take(before.len() as int) =~= before) by {
                            assert(old_views.take(before.len() as int) == before);
                        }
                    }
                    k
                },
            };
            let value = match epsilon_value(output, dest_response, current) {
                Ok(v) => v,
                Err(e) => {
                    proof {
                        assert(!epsilon_fits(operation, children@, state@, symbol as int));
                        assert(state_reached(children@, state@));
                        assert(bitwise_overflows(operation, children@));
                    }
                    return Err(e);
                },
            };
            assert(epsilon_fits(operation, children@, state@, symbol as int));
            if symbol == 0 && value != 0 {
                proof {
                    assert(state_reached(children@, state@));
                    assert(bitwise_gauge_broken(operation, children@));
                }
                return Err(FactorizedSectionRefusal::InternalGaugeViolation);
            }
            assert(step_ok(children@, state@, symbol as int));
            assert(state_views(states@)[id as int] == step_cursors(children@, state@, symbol as int));
            sums[symbol] = value;
            next[symbol] = id;
            proof {
                assert forall|a: int| 0 <= a <= symbol implies #[trigger] next@[a] < states.len()
                    && state_views(states@)[next@[a] as int] == step_cursors(children@, state@, a) by {
                    if a < symbol {
                        assert(state_views(states@)[next@[a] as int] == prev_views[next@[a] as int]);
                    }
                }
            }
            symbol += 1;
        }
        let row_epsilon = [sums[1], sums[2], sums[3]];
        epsilon.push(row_epsilon);
        tau.push(next);
        proof {
            assert forall|k: int, a: int|
                0 <= k < head + 1 && 0 <= a < 3 implies #[trigger] epsilon@[k]@[a] == bitwise_epsilon(
                    operation,
                    children@,
                    state_views(states@)[k],
                    a + 1,
                ) by {
                if k < head {
                    assert(state_views(states@)[k] == before[k]);
                }
            }
            assert forall|k: int, a: int|
                0 <= k < head + 1 && 0 <= a < 4 implies #[trigger] tau@[k]@[a]
                    < states.len() && state_views(states@)[tau@[k]@[a] as int] == step_cursors(
                    children@,
                    state_views(states@)[k],
                    a,
                ) by {
                if k < head {
                    assert(state_views(states@)[k] == before[k]);
                    assert(state_views(states@)[tau@[k]@[a] as int] == before[tau@[k]@[a] as int]);
                } else {
                    assert(state_views(states@)[k] == state@);
                }
            }
            assert forall|k: int, a: int| 0 <= k < head + 1 && 0 <= a < 4 implies #[trigger] step_ok(
                children@,
                state_views(states@)[k],
                a,
            ) by {
                if k < head {
                    assert(state_views(states@)[k] == before[k]);
                } else {
                    assert(state_views(states@)[k] == state@);
                }
            }
            assert forall|k: int| 0 <= k < head + 1 implies bitwise_epsilon(
                operation,
                children@,
                #[trigger] state_views(states@)[k],
                0,
            ) == 0 by {
                if k < head {
                    assert(state_views(states@)[k] == before[k]);
                }
            }
        }
        head += 1;
    }
    proof {
        assert(transitions_in(tau@, epsilon@.len())) by {
            assert forall|s: int, sym: int| 0 <= s < tau@.len() && 0 <= sym < 4 implies #[trigger] tau@[s]@[sym]
                < epsilon@.len() by {
                assert(tau@[s]@[sym] < states.len());
            }
        }
    }
    proof {
        assert(bitwise_explored(operation, children@, state_views(states@), epsilon@, tau@));
        lemma_bitwise_all_reached(operation, children@, state_views(states@), epsilon@, tau@);
    }
    let minimized = minimize_bases(&epsilon, &tau, 0);
    let (bases, root) = match minimized {
        Ok(v) => v,
        Err(e) => {
            proof {
                assert(has_distinct_states(epsilon@, tau@, 65));
                assert(bitwise_too_large(operation, children@));
            }
            return Err(e);
        },
    };
    let ghost bv = bases@;
    let ghost phi = choose|phi: Seq<int>| quotient_by(epsilon@, tau@, 0, bv, phi);
    assert(quotient_by(epsilon@, tau@, 0, bv, phi));
    let g = BaseGraph { bases, root, r0 };
    proof {
        assert(g.bases@ == bv);
        assert(g.root == 0);
        assert(canon(base_walk(g.bases@)).0 == base_walk(g.bases@));
        assert(bitwise_explored(operation, children@, state_views(states@), epsilon@, tau@));
        assert(bitwise_explored(operation, children@, state_views(states@), epsilon@, tau@) && quotient_by(
            epsilon@,
            tau@,
            0,
            g.bases@,
            phi,
        ));
        lemma_bitwise_total(operation, children@, state_views(states@), epsilon@, tau@, phi, g);
        if bitwise_beyond_budget(children@) {
            let sts = choose|sts: Seq<Seq<DigitCursor>>|
                #![trigger sts.len()]
                sts.len() == 257 && (forall|k: int| 0 <= k < 257 ==> state_reached(children@, #[trigger] sts[k])) && (
                forall|j: int, k: int| 0 <= j < 257 && 0 <= k < 257 && j != k ==> #[trigger] sts[j] != #[trigger] sts[k]);
            lemma_bitwise_explored_bound(operation, children@, state_views(states@), epsilon@, tau@, sts);
        }
    }
    Ok(g)
}

} // verus!
