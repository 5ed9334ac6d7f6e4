//! Fixed-width words: bit masks and wrapping arithmetic on `u64` values.
use vstd::prelude::*;
use vstd::arithmetic::power2::*;
use vstd::bits::*;
use crate::text::{dec_chars, hex_chars, push_all, push_char, push_decimal, push_hex};

verus! {

/// The mask with the low `n` bits set (all 64 bits when `n >= 64`).
pub open spec fn mask_of(n: nat) -> u64 {
    if n >= 64 {
        u64::MAX
    } else {
        (pow2(n) - 1) as u64
    }
}

/// The machine word holding `x` modulo `2^64`.
pub open spec fn word(x: int) -> u64 {
    (x % 0x1_0000_0000_0000_0000) as u64
}

/// The low `n` bits of `v`, read as a two's-complement signed number.
pub open spec fn signed_of(v: u64, n: nat) -> int
    recommends
        1 <= n <= 64,
{
    let low = v as nat % pow2(n);
    if low >= pow2((n - 1) as nat) {
        low - pow2(n)
    } else {
        low as int
    }
}

/// Masking with `mask_of(n)` keeps exactly the residue modulo `2^n`.
pub proof fn lemma_mask_is_mod(x: u64, n: nat)
    requires
        n <= 64,
    ensures
        x & mask_of(n) == x as nat % pow2(n),
{
    if n < 64 {
        lemma_u64_low_bits_mask_is_mod(x, n);
        lemma_u64_pow2_no_overflow(n);
    } else {
        lemma2_to64_rest();
        assert(x & 0xffff_ffff_ffff_ffffu64 == x) by (bit_vector);
    }
}

/// Builds the mask of the low `n` bits.
pub fn make_mask(n: u8) -> (m: u64)
    ensures
        m == mask_of(n as nat),
{
    if n >= 64 {
        u64::MAX
    } else {
        proof {
            lemma_u64_pow2_no_overflow(n as nat);
            lemma_u64_shl_is_mul(1, n as u64);
        }
        (1u64 << n) - 1
    }
}

/// A word of up to 64 bits with wrapping arithmetic.
#[derive(Clone, Copy, Debug, PartialEq, Eq, PartialOrd, Ord, Hash)]
pub struct VarInt(u64);

impl View for VarInt {
    type V = u64;

    closed spec fn view(&self) -> u64 {
        self.0
    }
}

impl VarInt {
    /// Wraps a raw word.
    pub fn new(value: u64) -> (r: VarInt)
        ensures
            r@ == value,
    {
        VarInt(value)
    }

    /// All bits set.
    pub fn max_value() -> (r: VarInt)
        ensures
            r@ == u64::MAX,
    {
        VarInt(u64::MAX)
    }

    /// The word zero.
    pub fn zero() -> (r: VarInt)
        ensures
            r@ == 0,
    {
        VarInt(0)
    }

    /// The word one.
    pub fn one() -> (r: VarInt)
        ensures
            r@ == 1,
    {
        VarInt(1)
    }

    /// The raw 64-bit word.
    pub fn raw(self) -> (r: u64)
        ensures
            r == self@,
    {
        self.0
    }

    /// The word restricted to `mask`.
    pub fn get(self, mask: u64) -> (r: u64)
        ensures
            r == self@ & mask,
    {
        self.0 & mask
    }

    /// The word restricted to `mask`, as a word.
    pub fn mask(self, mask: u64) -> (r: VarInt)
        ensures
            r@ == self@ & mask,
    {
        VarInt(self.get(mask))
    }

    /// The low `n` bits of the masked word, sign-extended.
    pub fn get_signed(self, n: u8, mask: u64) -> (r: i64)
        requires
            1 <= n <= 64,
        ensures
            r as int == signed_of(self@ & mask, n as nat),
    {
        let value = self.get(mask);
        let shift = 64 - n;
        proof {
            lemma_signed_shift(value, n);
        }
        ((value << shift) as i64) >> shift
    }

    /// The word shown at width `n`: with the sign bit of the masked word
    /// set, `(-m)` for the magnitude `m` of its signed reading; otherwise its
    /// value. Numerals are decimal, or `0x` and hexadecimal with `hex`, and a
    /// hexadecimal numeral in LaTeX is wrapped in `\mathrm{..}`.
    pub fn repr(self, n: u8, mask: u64, hex: bool, latex: bool) -> (r: String)
        requires
            1 <= n <= 64,
        ensures
            r@ == repr_chars(self@, n, mask, hex, latex),
    {
        let val = self.get(mask);
        let sign_bit = 1u64 << (n - 1);
        let mut out = String::new();
        if val & sign_bit != 0 {
            let signed = self.get_signed(n, mask);
            proof {
                lemma_signed_shift(val, n);
                lemma_sign_bit_negative(val, n);
            }
            // The most negative reading has no `i64` negation; its
            // magnitude is the sign bit itself.
            let magnitude: u64 = if signed == i64::MIN {
                0x8000_0000_0000_0000u64
            } else {
                (-signed) as u64
            };
            assert(magnitude as int == -signed_of(val, n as nat));
            push_all(&mut out, "(-");
            if hex && latex {
                push_all(&mut out, "\\mathrm{");
            }
            if hex {
                push_all(&mut out, "0x");
                push_hex(&mut out, magnitude);
            } else {
                push_decimal(&mut out, magnitude);
            }
            if hex && latex {
                push_all(&mut out, "}");
            }
            push_all(&mut out, ")");
            proof {
                reveal_strlit("(-");
                reveal_strlit("\\mathrm{");
                reveal_strlit("0x");
                reveal_strlit("}");
                reveal_strlit(")");
                let body = latex_wrap(numeral(magnitude as nat, hex), hex, latex);
                assert(out@ =~= seq!['(', '-'] + body + seq![')']);
            }
        } else {
            if hex && latex {
                push_all(&mut out, "\\mathrm{");
            }
            if hex {
                push_all(&mut out, "0x");
                push_hex(&mut out, val);
            } else {
                push_decimal(&mut out, val);
            }
            if hex && latex {
                push_all(&mut out, "}");
            }
            proof {
                reveal_strlit("\\mathrm{");
                reveal_strlit("0x");
                reveal_strlit("}");
                assert(out@ =~= latex_wrap(numeral(val as nat, hex), hex, latex));
            }
        }
        out
    }

    /// Bitwise complement.
    pub fn not(self) -> (r: VarInt)
        ensures
            r@ == !self@,
    {
        VarInt(!self.0)
    }

    /// Wrapping negation.
    pub fn neg(self) -> (r: VarInt)
        ensures
            r@ == word(-self@),
    {
        VarInt(0u64.wrapping_sub(self.0))
    }

    /// Bitwise exclusive or.
    pub fn bitxor(self, rhs: VarInt) -> (r: VarInt)
        ensures
            r@ == self@ ^ rhs@,
    {
        VarInt(self.0 ^ rhs.0)
    }

    /// Bitwise or.
    pub fn bitor(self, rhs: VarInt) -> (r: VarInt)
        ensures
            r@ == self@ | rhs@,
    {
        VarInt(self.0 | rhs.0)
    }

    /// Bitwise and.
    pub fn bitand(self, rhs: VarInt) -> (r: VarInt)
        ensures
            r@ == self@ & rhs@,
    {
        VarInt(self.0 & rhs.0)
    }

    /// Wrapping addition.
    pub fn add(self, rhs: VarInt) -> (r: VarInt)
        ensures
            r@ == word(self@ + rhs@),
    {
        VarInt(self.0.wrapping_add(rhs.0))
    }

    /// Wrapping subtraction.
    pub fn sub(self, rhs: VarInt) -> (r: VarInt)
        ensures
            r@ == word(self@ - rhs@),
    {
        VarInt(self.0.wrapping_sub(rhs.0))
    }

    /// Wrapping multiplication.
    pub fn mul(self, rhs: VarInt) -> (r: VarInt)
        ensures
            r@ == word(self@ * rhs@),
    {
        VarInt(self.0.wrapping_mul(rhs.0))
    }
}

pub proof fn lemma_signed_shift(value: u64, n: u8)
    requires
        1 <= n <= 64,
    ensures
        (((value << ((64 - n) as u8)) as i64) >> ((64 - n) as u8)) as int == signed_of(
            value,
            n as nat,
        ),
{
    let s: u8 = (64 - n) as u8;
    if n == 64 {
        lemma2_to64_rest();
        assert(s == 0);
        assert(((value << s) as i64) >> s == value as i64) by (bit_vector)
            requires
                s == 0u8,
        ;
        assert(value >= 0x8000_0000_0000_0000u64 ==> (value as i64) as int == value as int
            - 0x1_0000_0000_0000_0000int) by (bit_vector);
        assert(value < 0x8000_0000_0000_0000u64 ==> (value as i64) as int == value as int)
            by (bit_vector);
        assert(value as nat % pow2(64) == value);
    } else {
        let m: u64 = ((1u64 << n) - 1) as u64;
        assert(({
            let low = value & m;
            &&& low >= (1u64 << ((n - 1) as u8)) ==> (((value << s) as i64) >> s) as int == low as int
                - (1u64 << n) as int
            &&& low < (1u64 << ((n - 1) as u8)) ==> (((value << s) as i64) >> s) as int == low as int
        })) by (bit_vector)
            requires
                1u8 <= n < 64u8,
                s == ((64 - n) as u8),
                m == ((1u64 << n) - 1) as u64,
        ;
        lemma_u64_pow2_no_overflow(n as nat);
        lemma_u64_shl_is_mul(1, n as u64);
        lemma_u64_pow2_no_overflow((n - 1) as nat);
        lemma_u64_shl_is_mul(1, (n - 1) as u64);
        lemma_u64_low_bits_mask_is_mod(value, n as nat);
    }
}

/// The numeral of `v`: `0x` and lowercase hexadecimal digits, or decimal
/// digits.
pub open spec fn numeral(v: nat, hex: bool) -> Seq<char> {
    if hex {
        seq!['0', 'x'] + hex_chars(v)
    } else {
        dec_chars(v)
    }
}

/// `s` inside `\mathrm{..}` for a hexadecimal numeral in LaTeX, else `s`.
pub open spec fn latex_wrap(s: Seq<char>, hex: bool, latex: bool) -> Seq<char> {
    if hex && latex {
        seq!['\\', 'm', 'a', 't', 'h', 'r', 'm', '{'] + s + seq!['}']
    } else {
        s
    }
}

/// How a word is shown at width `n`: a word whose sign bit is set is shown
/// as `(-m)` with `m` its magnitude as a signed number, any other by its
/// value.
pub open spec fn repr_chars(v: u64, n: u8, mask: u64, hex: bool, latex: bool) -> Seq<char> {
    let val = v & mask;
    if val & (1u64 << ((n - 1) as u64)) != 0 {
        seq!['(', '-'] + latex_wrap(numeral((-signed_of(val, n as nat)) as nat, hex), hex, latex) + seq![')']
    } else {
        latex_wrap(numeral(val as nat, hex), hex, latex)
    }
}

/// A set sign bit makes the signed reading negative.
proof fn lemma_sign_bit_negative(value: u64, n: u8)
    requires
        1 <= n <= 64,
        value & (1u64 << ((n - 1) as u64)) != 0,
    ensures
        (((value << ((64 - n) as u8)) as i64) >> ((64 - n) as u8)) < 0,
{
    let s: u8 = (64 - n) as u8;
    let k: u64 = (n - 1) as u64;
    assert(k + s as u64 == 63);
    assert(value & (1u64 << k) != 0 && k < 64 && k + (s as u64) == 63 ==> (((value << s) as i64) >> s) < 0)
        by (bit_vector);
}

} // verus!
