//! Arbitrary variable names on top of the `v0, v1, ...` spelling the
//! expression grammar accepts.
//!
//! Every C-style identifier of a source text is mapped onto a fresh
//! `v<index>` before parsing, and the indices are mapped back to the original
//! spellings when printing. Renaming works on the text alone.
use vstd::prelude::*;
use crate::text::{char_is_alpha, char_is_digit, char_is_hex, dec_chars, dec_value, is_alpha, is_digit, is_hex, push_char, push_decimal};

verus! {

/// `c` may start an identifier.
pub open spec fn ident_start(c: char) -> bool {
    is_alpha(c) || c == '_'
}

/// `c` may continue an identifier.
pub open spec fn ident_continue(c: char) -> bool {
    is_alpha(c) || is_digit(c) || c == '_'
}

/// Whether `c` may start an identifier.
pub fn is_ident_start(c: char) -> (r: bool)
    ensures
        r == ident_start(c),
{
    char_is_alpha(c) || c == '_'
}

/// Whether `c` may continue an identifier.
pub fn is_ident_continue(c: char) -> (r: bool)
    ensures
        r == ident_continue(c),
{
    char_is_alpha(c) || char_is_digit(c) || c == '_'
}

/// The end of the run of decimal digits starting at `i`.
pub open spec fn digits_end(s: Seq<char>, i: nat) -> nat
    decreases s.len() - i,
{
    if i < s.len() && is_digit(s[i as int]) {
        digits_end(s, i + 1)
    } else {
        i
    }
}

/// The end of the run of hexadecimal digits starting at `i`.
pub open spec fn hex_end(s: Seq<char>, i: nat) -> nat
    decreases s.len() - i,
{
    if i < s.len() && is_hex(s[i as int]) {
        hex_end(s, i + 1)
    } else {
        i
    }
}

/// The end of the identifier characters starting at `i`.
pub open spec fn ident_end(s: Seq<char>, i: nat) -> nat
    decreases s.len() - i,
{
    if i < s.len() && ident_continue(s[i as int]) {
        ident_end(s, i + 1)
    } else {
        i
    }
}

/// Whether the number starting at `i` is a hexadecimal literal (`0x`/`0X`).
pub open spec fn hex_prefix(s: Seq<char>, i: nat) -> bool {
    s[i as int] == '0' && i + 1 < s.len() && (s[i + 1int] == 'x' || s[i + 1int] == 'X')
}

/// The end of the numeric literal starting at digit `i`.
pub open spec fn number_end(s: Seq<char>, i: nat) -> nat {
    if hex_prefix(s, i) {
        hex_end(s, i + 2)
    } else {
        digits_end(s, i)
    }
}

/// The first position, from `k` on, of `name` in `names`, or `-1`.
pub open spec fn position_from(names: Seq<Seq<char>>, name: Seq<char>, k: nat) -> int
    decreases names.len() - k,
{
    if k >= names.len() {
        -1
    } else if names[k as int] == name {
        k as int
    } else {
        position_from(names, name, k + 1)
    }
}

/// Renames the identifiers of `s` from position `i` on, with the names seen so
/// far in `names`: the renamed text and the names seen at the end.
pub open spec fn rewrite_from(s: Seq<char>, i: nat, names: Seq<Seq<char>>) -> (Seq<char>, Seq<Seq<char>>)
    decreases s.len() - i, 0nat,
{
    if i >= s.len() {
        (Seq::empty(), names)
    } else if is_digit(s[i as int]) {
        let j = number_end(s, i);
        proof {
            lemma_digits_end_bounds(s, i);
            lemma_hex_end_bounds(s, i + 2);
        }
        let rest = if j > i { rewrite_from(s, j, names) } else { (Seq::empty(), names) };
        (s.subrange(i as int, j as int) + rest.0, rest.1)
    } else if ident_start(s[i as int]) {
        let j = ident_end(s, i);
        proof {
            lemma_ident_end_bounds(s, i);
        }
        let name = s.subrange(i as int, j as int);
        let found = position_from(names, name, 0);
        let index = if found >= 0 { found as nat } else { names.len() };
        let names2 = if found >= 0 { names } else { names.push(name) };
        let rest = if j > i { rewrite_from(s, j, names2) } else { (Seq::empty(), names2) };
        (seq!['v'] + dec_chars(index) + rest.0, rest.1)
    } else {
        let rest = rewrite_from(s, i + 1, names);
        (seq![s[i as int]] + rest.0, rest.1)
    }
}

/// The spelling that stands for variable `index`.
pub open spec fn name_of(names: Seq<Seq<char>>, index: nat) -> Seq<char> {
    if index < names.len() {
        names[index as int]
    } else {
        seq!['v'] + dec_chars(index)
    }
}

/// Replaces every `v<index>` of `r` from position `i` on with its name.
pub open spec fn restore_from(names: Seq<Seq<char>>, r: Seq<char>, i: nat) -> Seq<char>
    decreases r.len() - i,
{
    if i >= r.len() {
        Seq::empty()
    } else if r[i as int] == 'v' && !(i > 0 && ident_continue(r[i - 1])) && digits_end(r, i + 1)
        > i + 1 && dec_value(r.subrange(i + 1int, digits_end(r, i + 1) as int)) <= usize::MAX {
        let end = digits_end(r, i + 1);
        proof {
            lemma_digits_end_bounds(r, i + 1);
        }
        name_of(names, dec_value(r.subrange(i + 1int, end as int))) + restore_from(names, r, end)
    } else {
        seq![r[i as int]] + restore_from(names, r, i + 1)
    }
}

/// The identifiers seen in an expression, in order of first appearance, so
/// that position `i` is the name that became `v<i>`.
pub struct Names(Vec<String>);

impl View for Names {
    type V = Seq<Seq<char>>;

    closed spec fn view(&self) -> Seq<Seq<char>> {
        self.0@.map_values(|n: String| n@)
    }
}

/// `digits_end` stays within the text and skips only digits.
pub proof fn lemma_digits_end_bounds(s: Seq<char>, i: nat)
    ensures
        i <= s.len() ==> i <= digits_end(s, i) <= s.len(),
        i > s.len() ==> digits_end(s, i) == i,
        forall|k: int| i <= k < digits_end(s, i) ==> is_digit(#[trigger] s[k]),
    decreases s.len() - i,
{
    if i < s.len() && is_digit(s[i as int]) {
        lemma_digits_end_bounds(s, i + 1);
    }
}

/// `hex_end` stays within the text.
pub proof fn lemma_hex_end_bounds(s: Seq<char>, i: nat)
    ensures
        i <= s.len() ==> i <= hex_end(s, i) <= s.len(),
    decreases s.len() - i,
{
    if i < s.len() && is_hex(s[i as int]) {
        lemma_hex_end_bounds(s, i + 1);
    }
}

/// `ident_end` stays within the text.
pub proof fn lemma_ident_end_bounds(s: Seq<char>, i: nat)
    ensures
        i <= s.len() ==> i <= ident_end(s, i) <= s.len(),
    decreases s.len() - i,
{
    if i < s.len() && ident_continue(s[i as int]) {
        lemma_ident_end_bounds(s, i + 1);
    }
}

/// Collects the characters of `s`.
pub(crate) fn chars_of(s: &str) -> (r: Vec<char>)
    ensures
        r@ == s@,
{
    let mut out: Vec<char> = Vec::new();
    for c in it: s.chars()
        invariant
            out@ == it.seq().take(it.index() as int),
    {
        out.push(c);
    }
    out
}

/// The string made of `chars[start..end]`.
fn string_of(chars: &Vec<char>, start: usize, end: usize) -> (r: String)
    requires
        start <= end <= chars.len(),
    ensures
        r@ == chars@.subrange(start as int, end as int),
{
    let mut out = String::new();
    let mut k = start;
    while k < end
        invariant
            start <= k <= end <= chars.len(),
            out@ == chars@.subrange(start as int, k as int),
        decreases end - k,
    {
        push_char(&mut out, chars[k]);
        k += 1;
        assert(out@ =~= chars@.subrange(start as int, k as int));
    }
    out
}

/// Appends `chars[start..end]` to `out`.
fn push_range(out: &mut String, chars: &Vec<char>, start: usize, end: usize)
    requires
        start <= end <= chars.len(),
    ensures
        final(out)@ == old(out)@ + chars@.subrange(start as int, end as int),
{
    let mut k = start;
    while k < end
        invariant
            start <= k <= end <= chars.len(),
            out@ == old(out)@ + chars@.subrange(start as int, k as int),
        decreases end - k,
    {
        push_char(out, chars[k]);
        k += 1;
        assert(out@ =~= old(out)@ + chars@.subrange(start as int, k as int));
    }
}

/// Appends `s` to `out`.
fn push_str(out: &mut String, s: &String)
    ensures
        final(out)@ == old(out)@ + s@,
{
    let mut k: usize = 0;
    let chars = chars_of(s.as_str());
    while k < chars.len()
        invariant
            k <= chars.len(),
            chars@ == s@,
            out@ == old(out)@ + chars@.take(k as int),
        decreases chars.len() - k,
    {
        push_char(out, chars[k]);
        k += 1;
        assert(out@ =~= old(out)@ + chars@.take(k as int));
    }
    assert(chars@.take(k as int) =~= s@);
}

/// Reading more digits never makes a numeral smaller.
proof fn lemma_dec_value_prefix(s: Seq<char>, k: int)
    requires
        0 <= k <= s.len(),
        forall|j: int| 0 <= j < s.len() ==> is_digit(#[trigger] s[j]),
    ensures
        dec_value(s.take(k)) <= dec_value(s),
    decreases s.len(),
{
    if k < s.len() {
        assert(s.drop_last().take(k) =~= s.take(k));
        lemma_dec_value_prefix(s.drop_last(), k);
    } else {
        assert(s.take(k) =~= s);
    }
}

/// The value of the decimal numeral `chars[start..end]`, if it fits a `usize`.
fn parse_decimal(chars: &Vec<char>, start: usize, end: usize) -> (r: Option<usize>)
    requires
        start <= end <= chars.len(),
        forall|j: int| start <= j < end ==> is_digit(#[trigger] chars@[j]),
    ensures
        match r {
            Some(v) => v == dec_value(chars@.subrange(start as int, end as int)),
            None => dec_value(chars@.subrange(start as int, end as int)) > usize::MAX,
        },
{
    let ghost sub = chars@.subrange(start as int, end as int);
    let mut acc: usize = 0;
    let mut k = start;
    while k < end
        invariant
            start <= k <= end <= chars.len(),
            sub == chars@.subrange(start as int, end as int),
            forall|j: int| start <= j < end ==> is_digit(#[trigger] chars@[j]),
            acc == dec_value(sub.take(k - start)),
        decreases end - k,
    {
        let d = ((chars[k] as u32) - 48) as usize;
        assert(sub.take(k + 1 - start).drop_last() =~= sub.take(k - start));
        assert(sub[k - start] == chars@[k as int]);
        let m = acc.checked_mul(10);
        if m.is_none() {
            proof {
                assert forall|j: int| 0 <= j < sub.len() implies is_digit(#[trigger] sub[j]) by {
                    assert(sub[j] == chars@[start + j]);
                }
                lemma_dec_value_prefix(sub, k + 1 - start);
            }
            return None;
        }
        let a = m.unwrap().checked_add(d);
        if a.is_none() {
            proof {
                assert forall|j: int| 0 <= j < sub.len() implies is_digit(#[trigger] sub[j]) by {
                    assert(sub[j] == chars@[start + j]);
                }
                lemma_dec_value_prefix(sub, k + 1 - start);
            }
            return None;
        }
        acc = a.unwrap();
        k += 1;
    }
    assert(sub.take(end - start) =~= sub);
    Some(acc)
}

impl Names {
    /// Rewrites every identifier in `source` to `v<index>`, returning the
    /// grammar-ready text and the table needed to undo it. Identifiers already
    /// spelled `v0`, `v1`, ... are interned like any other name.
    pub fn rewrite(source: &str) -> (r: (String, Names))
        ensures
            (r.0@, r.1@) == rewrite_from(source@, 0, Seq::empty()),
    {
        let chars = chars_of(source);
        let mut names: Vec<String> = Vec::new();
        let mut out = String::new();
        let mut i: usize = 0;
        let ghost full = rewrite_from(source@, 0, Seq::empty());
        assert(names@.map_values(|n: String| n@) =~= Seq::<Seq<char>>::empty());
        while i < chars.len()
            invariant
                chars@ == source@,
                i <= chars.len(),
                out@ + rewrite_from(chars@, i as nat, names@.map_values(|n: String| n@)).0 == full.0,
                rewrite_from(chars@, i as nat, names@.map_values(|n: String| n@)).1 == full.1,
                names.len() <= i,
            decreases chars.len() - i,
        {
            let ghost s = chars@;
            let ghost nv = names@.map_values(|n: String| n@);
            let c = chars[i];
            if char_is_digit(c) {
                let hex = c == '0' && i + 1 < chars.len() && (chars[i + 1] == 'x' || chars[i
                    + 1] == 'X');
                let start = i;
                if hex {
                    i += 2;
                    while i < chars.len() && char_is_hex(chars[i])
                        invariant
                            start + 2 <= i <= chars.len(),
                            chars@ == s,
                            hex_end(s, (start + 2) as nat) == hex_end(s, i as nat),
                        decreases chars.len() - i,
                    {
                        i += 1;
                    }
                } else {
                    while i < chars.len() && char_is_digit(chars[i])
                        invariant
                            start <= i <= chars.len(),
                            chars@ == s,
                            digits_end(s, start as nat) == digits_end(s, i as nat),
                        decreases chars.len() - i,
                    {
                        i += 1;
                    }
                }
                assert(i as nat == number_end(s, start as nat));
                push_range(&mut out, &chars, start, i);
                assert(i > start);
                assert(out@ + rewrite_from(s, i as nat, nv).0 =~= full.0);
            } else if is_ident_start(c) {
                let start = i;
                while i < chars.len() && is_ident_continue(chars[i])
                    invariant
                        start <= i <= chars.len(),
                        chars@ == s,
                        ident_end(s, start as nat) == ident_end(s, i as nat),
                    decreases chars.len() - i,
                {
                    i += 1;
                }
                assert(i > start);
                let name = string_of(&chars, start, i);
                let ghost nm = s.subrange(start as int, i as int);
                let mut k: usize = 0;
                while k < names.len() && !(names[k] == name)
                    invariant
                        k <= names.len(),
                        nv == names@.map_values(|n: String| n@),
                        name@ == nm,
                        position_from(nv, nm, 0) == position_from(nv, nm, k as nat),
                    decreases names.len() - k,
                {
                    k += 1;
                }
                let found = k < names.len();
                proof {
                    if !found {
                        assert(position_from(nv, nm, k as nat) == -1);
                    } else {
                        assert(nv[k as int] == nm);
                        assert(position_from(nv, nm, k as nat) == k);
                    }
                }
                if !found {
                    names.push(name);
                    assert(names@.map_values(|n: String| n@) =~= nv.push(nm));
                }
                let ghost out0 = out@;
                push_char(&mut out, 'v');
                push_decimal(&mut out, k as u64);
                proof {
                    let nv2 = names@.map_values(|n: String| n@);
                    assert(ident_end(s, start as nat) == i);
                    let rest = rewrite_from(s, i as nat, nv2);
                    assert(rewrite_from(s, start as nat, nv) == (seq!['v'] + dec_chars(k as nat)
                        + rest.0, rest.1));
                    assert(out@ =~= out0 + seq!['v'] + dec_chars(k as nat));
                    assert(out@ + rest.0 =~= out0 + (seq!['v'] + dec_chars(k as nat) + rest.0));
                }
            } else {
                push_char(&mut out, c);
                i += 1;
                assert(out@ + rewrite_from(s, i as nat, nv).0 =~= full.0);
            }
        }
        (out, Names(names))
    }

    /// The original name of variable `index`.
    pub fn get(&self, index: usize) -> (r: String)
        ensures
            r@ == name_of(self@, index as nat),
    {
        if index < self.0.len() {
            self.0[index].clone()
        } else {
            let mut out = String::new();
            push_char(&mut out, 'v');
            push_decimal(&mut out, index as u64);
            assert(out@ =~= seq!['v'] + dec_chars(index as nat));
            out
        }
    }

    /// Replaces every `v<index>` in rendered output with the original name.
    pub fn restore(&self, repr: &str) -> (r: String)
        ensures
            r@ == restore_from(self@, repr@, 0),
    {
        let chars = chars_of(repr);
        let mut out = String::new();
        let mut i: usize = 0;
        let ghost full = restore_from(self@, repr@, 0);
        while i < chars.len()
            invariant
                chars@ == repr@,
                i <= chars.len(),
                out@ + restore_from(self@, chars@, i as nat) == full,
            decreases chars.len() - i,
        {
            let ghost s = chars@;
            if chars[i] == 'v' && !(i > 0 && is_ident_continue(chars[i - 1])) {
                let start = i + 1;
                let mut end = start;
                while end < chars.len() && char_is_digit(chars[end])
                    invariant
                        start <= end <= chars.len(),
                        chars@ == s,
                        digits_end(s, start as nat) == digits_end(s, end as nat),
                    decreases chars.len() - end,
                {
                    end += 1;
                }
                proof {
                    lemma_digits_end_bounds(s, start as nat);
                }
                if end > start {
                    if let Some(index) = parse_decimal(&chars, start, end) {
                        let name = self.get(index);
                        let ghost out0 = out@;
                        push_str(&mut out, &name);
                        i = end;
                        assert(out@ + restore_from(self@, s, i as nat) =~= out0
                            + restore_from(self@, s, (start - 1) as nat));
                        continue;
                    }
                }
            }
            let ghost out0 = out@;
            push_char(&mut out, chars[i]);
            i += 1;
            assert(out@ + restore_from(self@, s, i as nat) =~= out0 + restore_from(
                self@,
                s,
                (i - 1) as nat,
            ));
        }
        out
    }
}

/// Some numeric literal of `s`, from position `i` on, is directly followed
/// by the start of an identifier (as in `1x`).
pub open spec fn glued_from(s: Seq<char>, i: nat) -> bool
    decreases s.len() - i, 0nat,
{
    if i >= s.len() {
        false
    } else if is_digit(s[i as int]) {
        let j = number_end(s, i);
        proof {
            lemma_digits_end_bounds(s, i);
            lemma_hex_end_bounds(s, i + 2);
        }
        (j < s.len() && ident_start(s[j as int])) || (j > i && glued_from(s, j))
    } else if ident_start(s[i as int]) {
        let j = ident_end(s, i);
        proof {
            lemma_ident_end_bounds(s, i);
        }
        j > i && glued_from(s, j)
    } else {
        glued_from(s, i + 1)
    }
}

/// The decimal numeral of `v` is a non-empty run of digits worth `v`.
pub proof fn lemma_dec_chars(v: nat)
    ensures
        dec_chars(v).len() >= 1,
        forall|k: int| 0 <= k < dec_chars(v).len() ==> is_digit(#[trigger] dec_chars(v)[k]),
        dec_value(dec_chars(v)) == v,
    decreases v,
{
    let d = v % 10;
    let c = crate::text::digit_char(d);
    assert(c as nat == d + 48) by {
        assert(((d + 48) as u8) as nat == d + 48);
    }
    if v >= 10 {
        lemma_dec_chars(v / 10);
        let x = dec_chars(v / 10);
        assert(dec_chars(v) == x.push(c));
        assert(x.push(c).drop_last() =~= x);
        assert(x.push(c).last() == c);
        assert(dec_value(x.push(c)) == dec_value(x) * 10 + ((c as nat) - 48) as nat);
        assert(v == (v / 10) * 10 + v % 10) by {
            vstd::arithmetic::div_mod::lemma_fundamental_div_mod(v as int, 10);
        }
        assert forall|k: int| 0 <= k < dec_chars(v).len() implies is_digit(#[trigger] dec_chars(v)[k]) by {
            if k < x.len() {
                assert(dec_chars(v)[k] == x[k]);
            }
        }
    } else {
        assert(dec_chars(v) == seq![c]);
        assert(seq![c].drop_last() =~= Seq::<char>::empty());
        assert(seq![c].last() == c);
        assert(dec_value(seq![c]) == dec_value(Seq::<char>::empty()) * 10 + ((c as nat) - 48) as nat);
    }
}

/// A found position holds the name.
proof fn lemma_position_from(names: Seq<Seq<char>>, name: Seq<char>, k: nat)
    ensures
        position_from(names, name, k) >= 0 ==> position_from(names, name, k) < names.len() && names[position_from(
            names,
            name,
            k,
        )] == name,
    decreases names.len() - k,
{
    if k < names.len() && names[k as int] != name {
        lemma_position_from(names, name, k + 1);
    }
}

/// `hex_end` skips only hexadecimal digits.
proof fn lemma_hex_end_run(s: Seq<char>, i: nat)
    ensures
        forall|k: int| i <= k < hex_end(s, i) ==> is_hex(#[trigger] s[k]),
    decreases s.len() - i,
{
    if i < s.len() && is_hex(s[i as int]) {
        lemma_hex_end_run(s, i + 1);
    }
}

/// `ident_end` skips only identifier characters.
proof fn lemma_ident_end_run(s: Seq<char>, i: nat)
    ensures
        forall|k: int| i <= k < ident_end(s, i) ==> ident_continue(#[trigger] s[k]),
        ident_end(s, i) < s.len() ==> !ident_continue(s[ident_end(s, i) as int]),
    decreases s.len() - i,
{
    if i < s.len() && ident_continue(s[i as int]) {
        lemma_ident_end_run(s, i + 1);
    }
}

/// The names seen grow from those given, by at most one per character.
proof fn lemma_rewrite_names(s: Seq<char>, i: nat, names: Seq<Seq<char>>)
    ensures
        rewrite_from(s, i, names).1.take(names.len() as int) == names,
        names.len() <= rewrite_from(s, i, names).1.len(),
        rewrite_from(s, i, names).1.len() <= names.len() + (if i <= s.len() {
            s.len() - i
        } else {
            0
        }),
    decreases s.len() - i,
{
    if i < s.len() {
        if is_digit(s[i as int]) {
            lemma_digits_end_bounds(s, i);
            lemma_hex_end_bounds(s, i + 2);
            let j = number_end(s, i);
            if j > i {
                lemma_rewrite_names(s, j, names);
            } else {
                assert(names.take(names.len() as int) =~= names);
            }
        } else if ident_start(s[i as int]) {
            lemma_ident_end_bounds(s, i);
            let j = ident_end(s, i);
            let name = s.subrange(i as int, j as int);
            let found = position_from(names, name, 0);
            let names2 = if found >= 0 {
                names
            } else {
                names.push(name)
            };
            if j > i {
                lemma_rewrite_names(s, j, names2);
                assert(rewrite_from(s, j, names2).1.take(names.len() as int) =~= names) by {
                    assert(rewrite_from(s, j, names2).1.take(names2.len() as int).take(names.len() as int) =~= rewrite_from(
                        s,
                        j,
                        names2,
                    ).1.take(names.len() as int));
                    assert(names2.take(names.len() as int) =~= names);
                }
            } else {
                assert(names2.take(names.len() as int) =~= names);
            }
        } else {
            lemma_rewrite_names(s, i + 1, names);
        }
    } else {
        assert(names.take(names.len() as int) =~= names);
    }
}

/// `digits_end` reads the same run after a prefix.
proof fn lemma_digits_end_shift(a: Seq<char>, b: Seq<char>, m: nat)
    requires
        m <= b.len(),
    ensures
        digits_end(a + b, a.len() + m) == a.len() + digits_end(b, m),
    decreases b.len() - m,
{
    if m < b.len() && is_digit(b[m as int]) {
        assert((a + b)[(a.len() + m) as int] == b[m as int]);
        lemma_digits_end_shift(a, b, m + 1);
    } else if m < b.len() {
        assert((a + b)[(a.len() + m) as int] == b[m as int]);
    }
}

/// Restoring text placed after a prefix reads as restoring the text alone,
/// unless the prefix ends in an identifier character right before a `v`.
proof fn lemma_restore_shift(names: Seq<Seq<char>>, a: Seq<char>, b: Seq<char>, k: nat)
    requires
        k <= b.len(),
        k > 0 || a.len() == 0 || !ident_continue(a.last()) || k == b.len() || b[k as int] != 'v',
    ensures
        restore_from(names, a + b, a.len() + k) == restore_from(names, b, k),
    decreases b.len() - k,
{
    let r = a + b;
    let i = a.len() + k;
    if k < b.len() {
        assert(r[i as int] == b[k as int]);
        if k > 0 {
            assert(r[i - 1] == b[k - 1]);
        } else if a.len() > 0 {
            assert(r[i - 1] == a.last());
        }
        lemma_digits_end_shift(a, b, k + 1);
        lemma_digits_end_bounds(b, k + 1);
        let endb = digits_end(b, k + 1);
        assert(r.subrange((i + 1) as int, (a.len() + endb) as int) =~= b.subrange((k + 1) as int, endb as int));
        lemma_restore_shift(names, a, b, k + 1);
        if endb > k + 1 {
            lemma_restore_shift(names, a, b, endb);
        }
    } else {
        assert(r.len() == i);
    }
}

/// Text without a `v` is restored as itself.
proof fn lemma_restore_plain(names: Seq<Seq<char>>, p: Seq<char>, b: Seq<char>, k: nat)
    requires
        k <= p.len(),
        forall|j: int| 0 <= j < p.len() ==> #[trigger] p[j] != 'v',
    ensures
        restore_from(names, p + b, k) == p.subrange(k as int, p.len() as int) + restore_from(names, p + b, p.len()),
    decreases p.len() - k,
{
    if k < p.len() {
        assert((p + b)[k as int] == p[k as int]);
        lemma_restore_plain(names, p, b, k + 1);
        assert(p.subrange(k as int, p.len() as int) =~= seq![p[k as int]] + p.subrange((k + 1) as int, p.len() as int));
    } else {
        assert(p.subrange(k as int, p.len() as int) =~= Seq::<char>::empty());
    }
}

/// The renamed text starts as the source does: with `v` for an identifier,
/// with the character itself otherwise.
proof fn lemma_rewrite_head(s: Seq<char>, i: nat, names: Seq<Seq<char>>)
    ensures
        i >= s.len() ==> rewrite_from(s, i, names).0.len() == 0,
        i < s.len() ==> rewrite_from(s, i, names).0.len() > 0 && rewrite_from(s, i, names).0[0] == if ident_start(
            s[i as int],
        ) {
            'v'
        } else {
            s[i as int]
        },
{
    if i < s.len() {
        if is_digit(s[i as int]) {
            lemma_digits_end_bounds(s, i);
            lemma_hex_end_bounds(s, i + 2);
            let j = number_end(s, i);
            assert(j > i) by {
                if hex_prefix(s, i) {
                } else {
                    assert(digits_end(s, i) == digits_end(s, i + 1));
                    lemma_digits_end_bounds(s, i + 1);
                }
            }
            assert(s.subrange(i as int, j as int)[0] == s[i as int]);
        }
    }
}

/// Restoring the renamed text from position `i` on gives the source back
/// from there, provided no numeric literal is glued to an identifier.
proof fn lemma_round_trip_from(s: Seq<char>, i: nat, names: Seq<Seq<char>>, all: Seq<Seq<char>>)
    requires
        i <= s.len(),
        !glued_from(s, i),
        all.take(rewrite_from(s, i, names).1.len() as int) == rewrite_from(s, i, names).1,
        rewrite_from(s, i, names).1.len() <= all.len(),
        all.len() <= usize::MAX,
    ensures
        restore_from(all, rewrite_from(s, i, names).0, 0) == s.subrange(i as int, s.len() as int),
    decreases s.len() - i,
{
    if i == s.len() {
        assert(s.subrange(i as int, s.len() as int) =~= Seq::<char>::empty());
    } else if is_digit(s[i as int]) {
        lemma_digits_end_bounds(s, i);
        lemma_hex_end_bounds(s, i + 2);
        lemma_hex_end_run(s, i + 2);
        let j = number_end(s, i);
        lemma_rewrite_head(s, i, names);
        assert(j > i) by {
            if !hex_prefix(s, i) {
                assert(digits_end(s, i) == digits_end(s, i + 1));
                lemma_digits_end_bounds(s, i + 1);
            }
        }
        let piece = s.subrange(i as int, j as int);
        let rest = rewrite_from(s, j, names);
        assert(rewrite_from(s, i, names) == (piece + rest.0, rest.1));
        assert forall|k: int| 0 <= k < piece.len() implies #[trigger] piece[k] != 'v' by {
            assert(piece[k] == s[i + k]);
            if hex_prefix(s, i) {
                if k >= 2 {
                    assert(is_hex(s[i + k]));
                }
            } else {
                assert(is_digit(s[i + k]));
            }
        }
        lemma_restore_plain(all, piece, rest.0, 0);
        lemma_rewrite_head(s, j, names);
        lemma_restore_shift(all, piece, rest.0, 0);
        lemma_round_trip_from(s, j, names, all);
        assert(piece.subrange(0, piece.len() as int) =~= piece);
        assert(piece + s.subrange(j as int, s.len() as int) =~= s.subrange(i as int, s.len() as int));
    } else if ident_start(s[i as int]) {
        lemma_ident_end_bounds(s, i);
        lemma_ident_end_run(s, i);
        let j = ident_end(s, i);
        assert(j > i);
        let name = s.subrange(i as int, j as int);
        let found = position_from(names, name, 0);
        lemma_position_from(names, name, 0);
        let index: nat = if found >= 0 {
            found as nat
        } else {
            names.len()
        };
        let names2 = if found >= 0 {
            names
        } else {
            names.push(name)
        };
        let rest = rewrite_from(s, j, names2);
        let d = dec_chars(index);
        let head = seq!['v'] + d;
        let r = head + rest.0;
        assert(rewrite_from(s, i, names) == (seq!['v'] + d + rest.0, rest.1));
        lemma_dec_chars(index);
        lemma_rewrite_names(s, j, names2);
        lemma_rewrite_head(s, j, names2);
        // the name sits at `index` in the final table
        assert(names2.len() > index);
        assert(names2[index as int] == name);
        assert(all[index as int] == name) by {
            assert(rest.1.take(names2.len() as int) == names2);
            assert(all.take(rest.1.len() as int)[index as int] == all[index as int]);
            assert(rest.1[index as int] == names2[index as int]);
        }
        // the digits after `v` end where the identifier did
        assert(digits_end(r, 1) == head.len()) by {
            let dd = seq!['v'] + d;
            assert forall|k: int| 1 <= k < head.len() implies is_digit(#[trigger] r[k]) by {
                assert(r[k] == d[k - 1]);
            }
            lemma_digits_run(r, 1, head.len() as nat);
            if head.len() < r.len() {
                assert(r[head.len() as int] == rest.0[0]);
                assert(!is_digit(s[j as int]));
            }
        }
        assert(r.subrange(1, head.len() as int) =~= d);
        assert(r[0] == 'v');
        assert(name_of(all, index) == name);
        assert(restore_from(all, r, 0) == name + restore_from(all, r, head.len()));
        lemma_restore_shift(all, head, rest.0, 0);
        lemma_round_trip_from(s, j, names2, all);
        assert(name + s.subrange(j as int, s.len() as int) =~= s.subrange(i as int, s.len() as int));
    } else {
        let rest = rewrite_from(s, i + 1, names);
        let c = s[i as int];
        assert(rewrite_from(s, i, names) == (seq![c] + rest.0, rest.1));
        assert(c != 'v');
        assert(!ident_continue(c));
        lemma_restore_plain(all, seq![c], rest.0, 0);
        lemma_restore_shift(all, seq![c], rest.0, 0);
        lemma_round_trip_from(s, i + 1, names, all);
        assert(seq![c].subrange(0, 1) =~= seq![c]);
        assert(seq![c] + s.subrange((i + 1) as int, s.len() as int) =~= s.subrange(i as int, s.len() as int));
    }
}

/// A run of digits from `i` to `e`, not followed by a digit, ends at `e`.
proof fn lemma_digits_run(s: Seq<char>, i: nat, e: nat)
    requires
        i <= e <= s.len(),
        forall|k: int| i <= k < e ==> is_digit(#[trigger] s[k]),
        e < s.len() ==> !is_digit(s[e as int]),
    ensures
        digits_end(s, i) == e,
    decreases e - i,
{
    if i < e {
        lemma_digits_run(s, i + 1, e);
    }
}

/// Renaming then restoring gives the source back, whenever no numeric
/// literal is directly followed by an identifier (`1x` renames to `1v0`,
/// whose `v0` reads as part of the literal and is left alone).
pub proof fn lemma_restore_after_rewrite(s: Seq<char>)
    requires
        s.len() <= usize::MAX,
        !glued_from(s, 0),
    ensures
        restore_from(rewrite_from(s, 0, Seq::empty()).1, rewrite_from(s, 0, Seq::empty()).0, 0) == s,
{
    let all = rewrite_from(s, 0, Seq::empty()).1;
    lemma_rewrite_names(s, 0, Seq::empty());
    assert(all.take(all.len() as int) =~= all);
    lemma_round_trip_from(s, 0, Seq::empty(), all);
    assert(s.subrange(0, s.len() as int) =~= s);
}

} // verus!
