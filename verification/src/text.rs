//! Character classes and numeral rendering shared by the textual front ends.
use vstd::prelude::*;

verus! {

/// `c` is an ASCII decimal digit.
pub open spec fn is_digit(c: char) -> bool {
    '0' <= c <= '9'
}

/// `c` is an ASCII letter.
pub open spec fn is_alpha(c: char) -> bool {
    ('a' <= c <= 'z') || ('A' <= c <= 'Z')
}

/// `c` is an ASCII hexadecimal digit.
pub open spec fn is_hex(c: char) -> bool {
    is_digit(c) || ('a' <= c <= 'f') || ('A' <= c <= 'F')
}

/// The character of the decimal digit `d`.
pub open spec fn digit_char(d: nat) -> char
    recommends
        d < 10,
{
    ((d + 48) as u8) as char
}

/// The decimal numeral of `v`, without leading zeros.
pub open spec fn dec_chars(v: nat) -> Seq<char>
    decreases v,
{
    if v < 10 {
        seq![digit_char(v)]
    } else {
        dec_chars(v / 10).push(digit_char(v % 10))
    }
}

/// The value of a numeral made of decimal digits.
pub open spec fn dec_value(s: Seq<char>) -> nat
    decreases s.len(),
{
    if s.len() == 0 {
        0
    } else {
        dec_value(s.drop_last()) * 10 + ((s.last() as nat) - 48) as nat
    }
}

/// Appends `c` to `s`.
#[verifier::external_body]
pub fn push_char(s: &mut String, c: char)
    ensures
        final(s)@ == old(s)@.push(c),
{
    s.push(c)
}

/// Whether `c` is an ASCII decimal digit.
pub fn char_is_digit(c: char) -> (r: bool)
    ensures
        r == is_digit(c),
{
    '0' <= c && c <= '9'
}

/// Whether `c` is an ASCII letter.
pub fn char_is_alpha(c: char) -> (r: bool)
    ensures
        r == is_alpha(c),
{
    ('a' <= c && c <= 'z') || ('A' <= c && c <= 'Z')
}

/// Whether `c` is an ASCII hexadecimal digit.
pub fn char_is_hex(c: char) -> (r: bool)
    ensures
        r == is_hex(c),
{
    char_is_digit(c) || ('a' <= c && c <= 'f') || ('A' <= c && c <= 'F')
}

/// Appends the decimal numeral of `v`.
pub fn push_decimal(out: &mut String, v: u64)
    ensures
        final(out)@ == old(out)@ + dec_chars(v as nat),
    decreases v,
{
    if v >= 10 {
        push_decimal(out, v / 10);
    }
    let d: u8 = (v % 10) as u8;
    push_char(out, (d + 48) as char);
    proof {
        if v >= 10 {
            assert(dec_chars(v as nat) == dec_chars((v / 10) as nat).push(digit_char((v % 10) as nat)));
        }
    }
    assert(final(out)@ =~= old(out)@ + dec_chars(v as nat));
}

/// The lowercase character of the hexadecimal digit `d`.
pub open spec fn hex_digit_char(d: nat) -> char
    recommends
        d < 16,
{
    if d < 10 {
        ((d + 48) as u8) as char
    } else {
        ((d + 87) as u8) as char
    }
}

/// The lowercase hexadecimal numeral of `v`, without leading zeros.
pub open spec fn hex_chars(v: nat) -> Seq<char>
    decreases v,
{
    if v < 16 {
        seq![hex_digit_char(v)]
    } else {
        hex_chars(v / 16).push(hex_digit_char(v % 16))
    }
}

/// Appends the lowercase hexadecimal numeral of `v`.
pub fn push_hex(out: &mut String, v: u64)
    ensures
        final(out)@ == old(out)@ + hex_chars(v as nat),
    decreases v,
{
    if v >= 16 {
        push_hex(out, v / 16);
    }
    let d: u8 = (v % 16) as u8;
    let c: char = if d < 10 {
        (d + 48) as char
    } else {
        (d + 87) as char
    };
    push_char(out, c);
    proof {
        if v >= 16 {
            assert(hex_chars(v as nat) == hex_chars((v / 16) as nat).push(hex_digit_char((v % 16) as nat)));
        }
    }
    assert(final(out)@ =~= old(out)@ + hex_chars(v as nat));
}

/// Appends the characters of `t`.
pub fn push_all(out: &mut String, t: &str)
    ensures
        final(out)@ == old(out)@ + t@,
{
    let mut i: usize = 0;
    let n = t.unicode_len();
    while i < n
        invariant
            i <= n,
            n == t@.len(),
            out@ == old(out)@ + t@.subrange(0, i as int),
        decreases n - i,
    {
        let c = t.get_char(i);
        push_char(out, c);
        i += 1;
        assert(out@ =~= old(out)@ + t@.subrange(0, i as int));
    }
    assert(t@.subrange(0, n as int) =~= t@);
}

} // verus!
