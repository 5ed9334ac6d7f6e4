//! Laws of reading statements.
use vstd::prelude::*;
use crate::program::{statement_spec, skip_blanks, digits_to, variable_at, unknown_spec, unknown_at, list_close, InsnModel, KindModel};
use crate::parser::{radix_value, digit_value, is_blank};
use crate::text::{dec_chars, dec_value, is_digit};
use crate::names::lemma_dec_chars;

verus! {

/// The numeral of a run of decimal digits is its decimal value.
proof fn lemma_radix_dec(s: Seq<char>)
    requires
        forall|k: int| 0 <= k < s.len() ==> is_digit(#[trigger] s[k]),
    ensures
        radix_value(s, 10) == dec_value(s),
    decreases s.len(),
{
    if s.len() > 0 {
        let pre = s.drop_last();
        assert forall|k: int| 0 <= k < pre.len() implies is_digit(#[trigger] pre[k]) by {
            assert(pre[k] == s[k]);
        }
        lemma_radix_dec(pre);
        assert(is_digit(s.last()));
        assert(digit_value(s.last()) == ((s.last() as nat) - 48) as nat);
    }
}

/// The run of digits from `i` ends at `j`, where a character that is no
/// digit, or the end, follows.
proof fn lemma_digits_run(s: Seq<char>, i: nat, j: nat, e: nat)
    requires
        i <= j <= e <= s.len(),
        forall|k: int| i <= k < j ==> is_digit(#[trigger] s[k]),
        j == e || !is_digit(s[j as int]),
    ensures
        digits_to(s, i, e) == j,
    decreases j - i,
{
    if i < j {
        lemma_digits_run(s, i + 1, j, e);
    }
}

/// The statement declaring `v<index>` of width `width` unknown:
/// `u<width> v<index> = unknown()`.
pub open spec fn unknown_statement(width: nat, index: nat) -> Seq<char> {
    seq!['u'] + dec_chars(width) + seq![' ', 'v'] + dec_chars(index) + seq![
        ' ',
        '=',
        ' ',
        'u',
        'n',
        'k',
        'n',
        'o',
        'w',
        'n',
        '(',
        ')',
    ]
}

/// Every width up to 255 is accepted, and no larger one: the statement
/// `u<width> v<index> = unknown()` declares `v<index>` unknown, with that
/// width, when the width fits in a byte, and is refused otherwise.
pub proof fn lemma_every_width_accepted(width: nat, index: usize)
    ensures
        statement_spec(unknown_statement(width, index as nat), 0, unknown_statement(width, index as nat).len()) == if width
            <= 255 {
            Some(Some(InsnModel { id: index, ty: width as u8, kind: KindModel::Unknown(Seq::empty()) }))
        } else {
            None
        },
{
    let w = dec_chars(width);
    let x = dec_chars(index as nat);
    lemma_dec_chars(width);
    lemma_dec_chars(index as nat);
    let s = unknown_statement(width, index as nat);
    let lw: int = w.len() as int;
    let li: int = x.len() as int;
    let e: nat = s.len();
    assert(e == 1 + lw + 2 + li + 12);
    assert(s[0] == 'u');
    assert forall|k: int| 1 <= k < 1 + lw implies s[k] == w[k - 1] by {}
    assert(s[1 + lw] == ' ');
    assert(s[2 + lw] == 'v');
    assert forall|k: int| 3 + lw <= k < 3 + lw + li implies s[k] == x[k - 3 - lw] by {}
    let d: int = 3 + lw + li;
    assert(s[d] == ' ');
    assert(s[d + 1] == '=');
    assert(s[d + 2] == ' ');
    assert(s[d + 3] == 'u' && s[d + 4] == 'n' && s[d + 5] == 'k' && s[d + 6] == 'n');
    assert(s[d + 7] == 'o' && s[d + 8] == 'w' && s[d + 9] == 'n');
    assert(s[d + 10] == '(');
    assert(s[d + 11] == ')');
    assert(skip_blanks(s, 0, e) == 0);
    assert forall|k: int| 1 <= k < 1 + lw implies is_digit(#[trigger] s[k]) by {
        assert(s[k] == w[k - 1]);
    }
    lemma_digits_run(s, 1, (1 + lw) as nat, e);
    assert(s.subrange(1, 1 + lw) =~= w);
    lemma_radix_dec(w);
    let b: int = 1 + lw;
    assert(radix_value(s.subrange(1, b), 10) == width);
    assert(skip_blanks(s, (b + 1) as nat, e) == b + 1);
    assert(skip_blanks(s, b as nat, e) == b + 1);
    assert forall|k: int| 3 + lw <= k < d implies is_digit(#[trigger] s[k]) by {
        assert(s[k] == x[k - 3 - lw]);
    }
    lemma_digits_run(s, (b + 2) as nat, d as nat, e);
    assert(s.subrange(b + 2, d) =~= x);
    lemma_radix_dec(x);
    assert(variable_at(s, (b + 1) as nat, e) == Some((index, d as nat)));
    assert(skip_blanks(s, (d + 1) as nat, e) == d + 1);
    assert(skip_blanks(s, d as nat, e) == d + 1);
    let p: int = d + 3;
    assert(skip_blanks(s, p as nat, e) == p);
    assert(skip_blanks(s, (d + 2) as nat, e) == p);
    assert(unknown_at(s, p as nat, e));
    assert(skip_blanks(s, (p + 7) as nat, e) == p + 7);
    assert(skip_blanks(s, (p + 8) as nat, e) == p + 8);
    assert(skip_blanks(s, (p + 9) as nat, e) == e);
    assert(list_close(s, (p + 9) as nat, e, Seq::<usize>::empty()) == Some(Seq::<usize>::empty()));
    assert(unknown_spec(s, (d + 2) as nat, e) == Some(Seq::<usize>::empty()));
}

} // verus!
