//! Programs: numbered statements over typed variables.
//!
//! A program is read line by line. `#` starts a comment that runs to the end
//! of the line, and blank lines are skipped. Every other line is a statement
//! `u<width> v<index> = <expression>` or `u<width> v<index> = unknown(<vars>)`
//! with a comma-separated, possibly empty list of variables. A statement may
//! only use variables that earlier statements define, and may not define a
//! variable twice.
use vstd::prelude::*;
use crate::expr::{Expr, Term, VarId};
use crate::names::chars_of;
use crate::parser::{error_at, is_blank, parse_chars, parse_radix, parse_spec, radix_value};
use crate::text::{char_is_digit, is_digit};
use crate::variables::uses_var;

verus! {

/// What a statement does.
#[derive(Debug, PartialEq, Eq)]
pub enum InsnKind {
    /// The variable is the value of the expression.
    Assign(Expr),
    /// The variable is unknown, possibly depending on the listed variables.
    Unknown(Vec<VarId>),
}

/// A statement defining variable `id` of `ty` bits.
#[derive(Debug, PartialEq, Eq)]
pub struct Insn {
    pub id: VarId,
    pub ty: u8,
    pub kind: InsnKind,
}

/// The model of what a statement does.
pub enum KindModel {
    Assign(Term),
    Unknown(Seq<usize>),
}

/// The model of a statement.
pub struct InsnModel {
    pub id: usize,
    pub ty: u8,
    pub kind: KindModel,
}

impl View for Insn {
    type V = InsnModel;

    open spec fn view(&self) -> InsnModel {
        InsnModel {
            id: self.id.0,
            ty: self.ty,
            kind: match self.kind {
                InsnKind::Assign(e) => KindModel::Assign(e@),
                InsnKind::Unknown(vs) => KindModel::Unknown(vs@.map_values(|v: VarId| v.0)),
            },
        }
    }
}

/// The statement uses variable `v`.
pub open spec fn insn_uses(insn: InsnModel, v: usize) -> bool {
    match insn.kind {
        KindModel::Assign(t) => uses_var(t, v),
        KindModel::Unknown(args) => args.contains(v),
    }
}

/// The variables the statements of `prog` define, in order.
pub open spec fn defined_ids(prog: Seq<InsnModel>) -> Seq<usize> {
    prog.map_values(|i: InsnModel| i.id)
}

/// `insn` may follow `prog`: it uses only variables `prog` defines, and
/// defines one that `prog` does not.
pub open spec fn push_ok(prog: Seq<InsnModel>, insn: InsnModel) -> bool {
    &&& forall|v: usize| #[trigger] insn_uses(insn, v) ==> defined_ids(prog).contains(v)
    &&& !defined_ids(prog).contains(insn.id)
}

/// Adding the statements `list` in order to `prog`, up to the first that may
/// not follow: the statements then, and whether all were added.
pub open spec fn append_spec(prog: Seq<InsnModel>, list: Seq<InsnModel>) -> (Seq<InsnModel>, bool)
    decreases list.len(),
{
    if list.len() == 0 {
        (prog, true)
    } else if push_ok(prog, list[0]) {
        append_spec(prog.push(list[0]), list.drop_first())
    } else {
        (prog, false)
    }
}

/// A list of statements, each using only variables defined before it.
pub struct Program {
    insns: Vec<Insn>,
}

impl View for Program {
    type V = Seq<InsnModel>;

    closed spec fn view(&self) -> Seq<InsnModel> {
        self.insns@.map_values(|i: Insn| i@)
    }
}

impl Program {
    /// The empty program.
    pub fn new() -> (r: Program)
        ensures
            r@ == Seq::<InsnModel>::empty(),
    {
        let r = Program { insns: Vec::new() };
        assert(r@ =~= Seq::<InsnModel>::empty());
        r
    }

    /// The number of statements.
    pub fn len(&self) -> (r: usize)
        ensures
            r == self@.len(),
    {
        self.insns.len()
    }

    /// Statement `i`, if there is one.
    pub fn get_index(&self, i: usize) -> (r: Option<&Insn>)
        ensures
            match r {
                Some(x) => i < self@.len() && x@ == self@[i as int],
                None => i >= self@.len(),
            },
    {
        if i < self.insns.len() {
            Some(&self.insns[i])
        } else {
            None
        }
    }

    /// Whether some statement defines variable `v`.
    fn defines(&self, v: usize) -> (r: bool)
        ensures
            r == defined_ids(self@).contains(v),
    {
        let mut k: usize = 0;
        while k < self.insns.len()
            invariant
                k <= self.insns.len(),
                forall|j: int| 0 <= j < k ==> self.insns@[j].id.0 != v,
            decreases self.insns.len() - k,
        {
            if self.insns[k].id.0 == v {
                proof {
                    assert(defined_ids(self@)[k as int] == v);
                }
                return true;
            }
            k += 1;
        }
        proof {
            if defined_ids(self@).contains(v) {
                let j = choose|j: int| 0 <= j < defined_ids(self@).len() && defined_ids(self@)[j] == v;
                assert(self.insns@[j].id.0 == v);
            }
        }
        false
    }

    /// Whether every variable `insn` uses is defined.
    fn uses_defined(&self, insn: &Insn) -> (r: bool)
        ensures
            r == forall|v: usize| #[trigger] insn_uses(insn@, v) ==> defined_ids(self@).contains(v),
    {
        match &insn.kind {
            InsnKind::Assign(e) => {
                let vars = e.get_vars();
                let mut k: usize = 0;
                while k < vars.len()
                    invariant
                        k <= vars.len(),
                        insn.kind == InsnKind::Assign(*e),
                        forall|v: usize| uses_var(e@, v) <==> exists|i: int| 0 <= i < vars.len() && #[trigger] vars@[i].0 == v,
                        forall|j: int| 0 <= j < k ==> defined_ids(self@).contains(#[trigger] vars@[j].0),
                    decreases vars.len() - k,
                {
                    if !self.defines(vars[k].0) {
                        proof {
                            assert(uses_var(e@, vars@[k as int].0));
                            assert(insn_uses(insn@, vars@[k as int].0));
                        }
                        return false;
                    }
                    k += 1;
                }
                proof {
                    assert forall|v: usize| #[trigger] insn_uses(insn@, v) implies defined_ids(self@).contains(v) by {
                        assert(uses_var(e@, v));
                        let j = choose|j: int| 0 <= j < vars.len() && #[trigger] vars@[j].0 == v;
                        assert(defined_ids(self@).contains(vars@[j].0));
                    }
                }
                true
            },
            InsnKind::Unknown(args) => {
                let ghost ids = args@.map_values(|v: VarId| v.0);
                let mut k: usize = 0;
                while k < args.len()
                    invariant
                        k <= args.len(),
                        insn.kind == InsnKind::Unknown(*args),
                        ids == args@.map_values(|v: VarId| v.0),
                        forall|j: int| 0 <= j < k ==> defined_ids(self@).contains(#[trigger] ids[j]),
                    decreases args.len() - k,
                {
                    if !self.defines(args[k].0) {
                        proof {
                            assert(ids[k as int] == args@[k as int].0);
                            assert(ids.contains(args@[k as int].0));
                            assert(insn_uses(insn@, args@[k as int].0));
                        }
                        return false;
                    }
                    assert(ids[k as int] == args@[k as int].0);
                    k += 1;
                }
                proof {
                    assert forall|v: usize| #[trigger] insn_uses(insn@, v) implies defined_ids(self@).contains(v) by {
                        assert(ids.contains(v));
                        let j = choose|j: int| 0 <= j < ids.len() && ids[j] == v;
                        assert(defined_ids(self@).contains(ids[j]));
                    }
                }
                true
            },
        }
    }

    /// Adds `insn` at the end. Refused, leaving the program as it was, when
    /// it uses a variable no statement defines or defines one that a
    /// statement already does.
    pub fn push(&mut self, insn: Insn) -> (r: Result<(), String>)
        ensures
            push_ok(old(self)@, insn@) ==> r is Ok && final(self)@ == old(self)@.push(insn@),
            !push_ok(old(self)@, insn@) ==> r is Err && final(self)@ == old(self)@,
    {
        if !self.uses_defined(&insn) {
            return Err(error_at("a variable is used before it is defined"));
        }
        if self.defines(insn.id.0) {
            return Err(error_at("a variable is declared twice"));
        }
        let ghost before = self@;
        let ghost m = insn@;
        self.insns.push(insn);
        assert(self@ =~= before.push(m));
        Ok(())
    }

    /// Adds the statements of `insns` in order, up to the first that is
    /// refused; the statements before it stay added.
    pub fn append(&mut self, insns: Vec<Insn>) -> (r: Result<(), String>)
        ensures
            final(self)@ == append_spec(old(self)@, insns@.map_values(|i: Insn| i@)).0,
            r is Ok == append_spec(old(self)@, insns@.map_values(|i: Insn| i@)).1,
    {
        let ghost orig = insns@.map_values(|i: Insn| i@);
        let ghost goal = append_spec(self@, orig);
        let mut rest = insns;
        while rest.len() > 0
            invariant
                goal == append_spec(old(self)@, orig),
                orig == insns@.map_values(|i: Insn| i@),
                append_spec(self@, rest@.map_values(|i: Insn| i@)) == goal,
            decreases rest.len(),
        {
            let ghost list = rest@.map_values(|i: Insn| i@);
            let insn = rest.remove(0);
            proof {
                assert(list[0] == insn@);
                assert(rest@.map_values(|i: Insn| i@) =~= list.drop_first());
            }
            let ghost cur = self@;
            let ghost m0 = insn@;
            match self.push(insn) {
                Ok(()) => {
                    assert(append_spec(cur, list) == append_spec(cur.push(m0), list.drop_first()));
                },
                Err(m) => {
                    assert(append_spec(cur, list) == (cur, false));
                    return Err(m);
                },
            }
        }
        proof {
            assert(rest@.map_values(|i: Insn| i@) =~= Seq::<InsnModel>::empty());
        }
        Ok(())
    }
}

/// The end of the line that starts at `i`: the next `\n`, or the end.
pub open spec fn line_end(s: Seq<char>, i: nat) -> nat
    decreases s.len() - i,
{
    if i < s.len() && s[i as int] != '\n' {
        line_end(s, i + 1)
    } else {
        i
    }
}

/// The first `#` in `s[i..e]`, or `e`.
pub open spec fn comment_start(s: Seq<char>, i: nat, e: nat) -> nat
    decreases e - i,
{
    if i < e && s[i as int] != '#' {
        comment_start(s, i + 1, e)
    } else {
        i
    }
}

/// The first character of `s[i..e]` that is not blank, or `e`.
pub open spec fn skip_blanks(s: Seq<char>, i: nat, e: nat) -> nat
    decreases e - i,
{
    if i < e && is_blank(s[i as int]) {
        skip_blanks(s, i + 1, e)
    } else {
        i
    }
}

/// The end of the run of decimal digits of `s[i..e]` from `i`.
pub open spec fn digits_to(s: Seq<char>, i: nat, e: nat) -> nat
    decreases e - i,
{
    if i < e && is_digit(s[i as int]) {
        digits_to(s, i + 1, e)
    } else {
        i
    }
}

/// The word `unknown` starts at `p`, within `e`.
pub open spec fn unknown_at(s: Seq<char>, p: nat, e: nat) -> bool {
    &&& p + 7 <= e
    &&& s[p as int] == 'u' && s[p + 1int] == 'n' && s[p + 2int] == 'k' && s[p + 3int] == 'n'
    &&& s[p + 4int] == 'o' && s[p + 5int] == 'w' && s[p + 6int] == 'n'
}

/// A variable `v<index>` at `p` within `e`: its index and the end.
pub open spec fn variable_at(s: Seq<char>, p: nat, e: nat) -> Option<(usize, nat)> {
    if p < e && s[p as int] == 'v' {
        let d = digits_to(s, p + 1, e);
        let v = radix_value(s.subrange(p + 1int, d as int), 10);
        if d > p + 1 && v <= usize::MAX {
            Some((v as usize, d))
        } else {
            None
        }
    } else {
        None
    }
}

/// Only blanks from `p` to `e`: then the variables `acc`.
pub open spec fn list_close(s: Seq<char>, p: nat, e: nat, acc: Seq<usize>) -> Option<Seq<usize>> {
    if skip_blanks(s, p, e) == e {
        Some(acc)
    } else {
        None
    }
}

/// The variables of a list from `p` on, after the ones in `acc`, up to the
/// closing parenthesis and the end of the statement.
pub open spec fn list_from(s: Seq<char>, p: nat, e: nat, acc: Seq<usize>) -> Option<Seq<usize>>
    decreases e - p,
{
    match variable_at(s, p, e) {
        Some((v, d)) => {
            let x = skip_blanks(s, d, e);
            if x < e && s[x as int] == ',' {
                let y = skip_blanks(s, x + 1, e);
                if p < y <= e {
                    list_from(s, y, e, acc.push(v))
                } else {
                    None
                }
            } else if x < e && s[x as int] == ')' {
                list_close(s, x + 1, e, acc.push(v))
            } else {
                None
            }
        },
        None => None,
    }
}

/// The variables of `unknown(<vars>)` spelled by `s[i..e]`, if it spells one.
pub open spec fn unknown_spec(s: Seq<char>, i: nat, e: nat) -> Option<Seq<usize>> {
    let p = skip_blanks(s, i, e);
    if unknown_at(s, p, e) {
        let q = skip_blanks(s, p + 7, e);
        if q < e && s[q as int] == '(' {
            let r = skip_blanks(s, q + 1, e);
            if r < e && s[r as int] == ')' {
                list_close(s, r + 1, e, Seq::empty())
            } else {
                list_from(s, r, e, Seq::empty())
            }
        } else {
            None
        }
    } else {
        None
    }
}

/// What `s[i..e]` holds: nothing (`Some(None)`), a statement, or `None`
/// when it is not well formed.
pub open spec fn statement_spec(s: Seq<char>, i: nat, e: nat) -> Option<Option<InsnModel>> {
    let a = skip_blanks(s, i, e);
    if a >= e {
        Some(None)
    } else if s[a as int] != 'u' {
        None
    } else {
        let b = digits_to(s, a + 1, e);
        let width = radix_value(s.subrange(a + 1int, b as int), 10);
        if b == a + 1 || width > 255 {
            None
        } else {
            match variable_at(s, skip_blanks(s, b, e), e) {
                Some((id, d)) => {
                    let f = skip_blanks(s, d, e);
                    if f < e && s[f as int] == '=' {
                        match unknown_spec(s, f + 1, e) {
                            Some(args) => Some(
                                Some(InsnModel { id, ty: width as u8, kind: KindModel::Unknown(args) }),
                            ),
                            None => match parse_spec(s.subrange(f + 1int, e as int)) {
                                Some(t) => Some(Some(InsnModel { id, ty: width as u8, kind: KindModel::Assign(t) })),
                                None => None,
                            },
                        }
                    } else {
                        None
                    }
                },
                None => None,
            }
        }
    }
}

/// The program of the lines of `s` from position `i` on, after the
/// statements `prog`; `None` when a line is not well formed or a statement
/// may not follow the ones before it.
pub open spec fn program_from(s: Seq<char>, i: nat, prog: Seq<InsnModel>) -> Option<Seq<InsnModel>>
    decreases s.len() - i,
{
    if i >= s.len() {
        Some(prog)
    } else {
        let e = line_end(s, i);
        let c = comment_start(s, i, e);
        if e < i {
            None
        } else {
            match statement_spec(s, i, c) {
                Some(None) => if e < s.len() {
                    program_from(s, e + 1, prog)
                } else {
                    Some(prog)
                },
                Some(Some(insn)) => if push_ok(prog, insn) {
                    if e < s.len() {
                        program_from(s, e + 1, prog.push(insn))
                    } else {
                        Some(prog.push(insn))
                    }
                } else {
                    None
                },
                None => None,
            }
        }
    }
}

/// The end of the line starting at `i`.
fn line_end_of(chars: &Vec<char>, i: usize) -> (r: usize)
    requires
        i <= chars.len(),
    ensures
        r == line_end(chars@, i as nat),
        i <= r <= chars.len(),
{
    let mut k = i;
    while k < chars.len() && chars[k] != '\n'
        invariant
            i <= k <= chars.len(),
            line_end(chars@, i as nat) == line_end(chars@, k as nat),
        decreases chars.len() - k,
    {
        k += 1;
    }
    k
}

/// The first `#` of `chars[i..e]`, or `e`.
fn comment_start_of(chars: &Vec<char>, i: usize, e: usize) -> (r: usize)
    requires
        i <= e <= chars.len(),
    ensures
        r == comment_start(chars@, i as nat, e as nat),
        i <= r <= e,
{
    let mut k = i;
    while k < e && chars[k] != '#'
        invariant
            i <= k <= e <= chars.len(),
            comment_start(chars@, i as nat, e as nat) == comment_start(chars@, k as nat, e as nat),
        decreases e - k,
    {
        k += 1;
    }
    k
}

/// The first character of `chars[i..e]` that is not blank, or `e`.
fn skip_blanks_of(chars: &Vec<char>, i: usize, e: usize) -> (r: usize)
    requires
        i <= e <= chars.len(),
    ensures
        r == skip_blanks(chars@, i as nat, e as nat),
        i <= r <= e,
{
    let mut k = i;
    while k < e && (chars[k] == ' ' || chars[k] == '\t' || chars[k] == '\n' || chars[k] == '\r')
        invariant
            i <= k <= e <= chars.len(),
            skip_blanks(chars@, i as nat, e as nat) == skip_blanks(chars@, k as nat, e as nat),
        decreases e - k,
    {
        k += 1;
    }
    k
}

/// The end of the run of digits of `chars[i..e]` from `i`.
fn digits_to_of(chars: &Vec<char>, i: usize, e: usize) -> (r: usize)
    requires
        i <= e <= chars.len(),
    ensures
        r == digits_to(chars@, i as nat, e as nat),
        i <= r <= e,
        forall|j: int| i <= j < r ==> is_digit(#[trigger] chars@[j]),
{
    let mut k = i;
    while k < e && char_is_digit(chars[k])
        invariant
            i <= k <= e <= chars.len(),
            digits_to(chars@, i as nat, e as nat) == digits_to(chars@, k as nat, e as nat),
            forall|j: int| i <= j < k ==> is_digit(#[trigger] chars@[j]),
        decreases e - k,
    {
        k += 1;
    }
    k
}

/// The value of the decimal digits `chars[i..d]`, when it is at most `max`.
fn decimal_at_most(chars: &Vec<char>, i: usize, d: usize, max: u64) -> (r: Option<u64>)
    requires
        i <= d <= chars.len(),
        forall|j: int| i <= j < d ==> is_digit(#[trigger] chars@[j]),
    ensures
        match r {
            Some(v) => v == radix_value(chars@.subrange(i as int, d as int), 10) && v <= max,
            None => radix_value(chars@.subrange(i as int, d as int), 10) > max,
        },
{
    match parse_radix(chars, i, d, 10) {
        Some(v) => if v <= max {
            Some(v)
        } else {
            None
        },
        None => None,
    }
}

/// The variable `v<index>` at `p`, within `e`.
fn variable_at_of(chars: &Vec<char>, p: usize, e: usize) -> (r: Option<(usize, usize)>)
    requires
        p <= e <= chars.len(),
    ensures
        match variable_at(chars@, p as nat, e as nat) {
            Some((v, d)) => r == Some((v, d as usize)) && p < d <= e,
            None => r is None,
        },
{
    if p < e && chars[p] == 'v' {
        let d = digits_to_of(chars, p + 1, e);
        if d > p + 1 {
            match decimal_at_most(chars, p + 1, d, usize::MAX as u64) {
                Some(v) => Some((v as usize, d)),
                None => None,
            }
        } else {
            None
        }
    } else {
        None
    }
}

/// Only blanks from `p` to `e`.
fn list_close_of(chars: &Vec<char>, p: usize, e: usize, acc: Vec<usize>) -> (r: Option<Vec<usize>>)
    requires
        p <= e <= chars.len(),
    ensures
        match list_close(chars@, p as nat, e as nat, acc@) {
            Some(vs) => r matches Some(x) && x@ == vs,
            None => r is None,
        },
{
    if skip_blanks_of(chars, p, e) == e {
        Some(acc)
    } else {
        None
    }
}

/// The variables of a list from `p` on, after those in `acc`.
fn list_from_of(chars: &Vec<char>, p: usize, e: usize, acc: Vec<usize>) -> (r: Option<Vec<usize>>)
    requires
        p <= e <= chars.len(),
    ensures
        match list_from(chars@, p as nat, e as nat, acc@) {
            Some(vs) => r matches Some(x) && x@ == vs,
            None => r is None,
        },
    decreases e - p,
{
    match variable_at_of(chars, p, e) {
        Some((v, d)) => {
            let x = skip_blanks_of(chars, d, e);
            let mut acc = acc;
            acc.push(v);
            if x < e && chars[x] == ',' {
                let y = skip_blanks_of(chars, x + 1, e);
                if p < y && y <= e {
                    list_from_of(chars, y, e, acc)
                } else {
                    None
                }
            } else if x < e && chars[x] == ')' {
                list_close_of(chars, x + 1, e, acc)
            } else {
                None
            }
        },
        None => None,
    }
}

/// The variables of `unknown(<vars>)` spelled by `chars[i..e]`.
fn unknown_of(chars: &Vec<char>, i: usize, e: usize) -> (r: Option<Vec<usize>>)
    requires
        i <= e <= chars.len(),
    ensures
        match unknown_spec(chars@, i as nat, e as nat) {
            Some(vs) => r matches Some(x) && x@ == vs,
            None => r is None,
        },
{
    let p = skip_blanks_of(chars, i, e);
    if e - p >= 7 && chars[p] == 'u' && chars[p + 1] == 'n' && chars[p + 2] == 'k' && chars[p + 3] == 'n' && chars[p
        + 4] == 'o' && chars[p + 5] == 'w' && chars[p + 6] == 'n' {
        let q = skip_blanks_of(chars, p + 7, e);
        if q < e && chars[q] == '(' {
            let r = skip_blanks_of(chars, q + 1, e);
            if r < e && chars[r] == ')' {
                list_close_of(chars, r + 1, e, Vec::new())
            } else {
                list_from_of(chars, r, e, Vec::new())
            }
        } else {
            None
        }
    } else {
        None
    }
}

/// The characters `chars[i..e]`.
fn slice_of(chars: &Vec<char>, i: usize, e: usize) -> (r: Vec<char>)
    requires
        i <= e <= chars.len(),
    ensures
        r@ == chars@.subrange(i as int, e as int),
{
    let mut out: Vec<char> = Vec::new();
    let mut k = i;
    while k < e
        invariant
            i <= k <= e <= chars.len(),
            out@ == chars@.subrange(i as int, k as int),
        decreases e - k,
    {
        out.push(chars[k]);
        k += 1;
        assert(out@ =~= chars@.subrange(i as int, k as int));
    }
    out
}

/// The variables of a list as variable names.
fn variable_ids(vs: Vec<usize>) -> (r: Vec<VarId>)
    ensures
        r@.map_values(|v: VarId| v.0) == vs@,
{
    let mut out: Vec<VarId> = Vec::new();
    let mut k: usize = 0;
    while k < vs.len()
        invariant
            k <= vs.len(),
            out.len() == k,
            forall|j: int| 0 <= j < k ==> out@[j].0 == vs@[j],
        decreases vs.len() - k,
    {
        out.push(VarId(vs[k]));
        k += 1;
    }
    assert(out@.map_values(|v: VarId| v.0) =~= vs@);
    out
}

/// The statement `chars[i..e]` holds, if any.
fn statement_of(chars: &Vec<char>, i: usize, e: usize) -> (r: Result<Option<Insn>, String>)
    requires
        i <= e <= chars.len(),
    ensures
        match statement_spec(chars@, i as nat, e as nat) {
            Some(None) => r matches Ok(x) && x is None,
            Some(Some(m)) => r matches Ok(x) && x matches Some(insn) && insn@ == m,
            None => r is Err,
        },
{
    let a = skip_blanks_of(chars, i, e);
    if a >= e {
        return Ok(None);
    }
    if chars[a] != 'u' {
        return Err(error_at("a statement starts with its type"));
    }
    let b = digits_to_of(chars, a + 1, e);
    if b == a + 1 {
        return Err(error_at("type width missing"));
    }
    let width = match decimal_at_most(chars, a + 1, b, 255) {
        Some(w) => w as u8,
        None => {
            return Err(error_at("type width out of range"));
        },
    };
    let c = skip_blanks_of(chars, b, e);
    let (id, d) = match variable_at_of(chars, c, e) {
        Some(v) => v,
        None => {
            return Err(error_at("variable index out of range or missing"));
        },
    };
    let f = skip_blanks_of(chars, d, e);
    if !(f < e && chars[f] == '=') {
        return Err(error_at("expected `=`"));
    }
    match unknown_of(chars, f + 1, e) {
        Some(args) => {
            let args = variable_ids(args);
            let insn = Insn { id: VarId(id), ty: width, kind: InsnKind::Unknown(args) };
            Ok(Some(insn))
        },
        None => {
            let rest = slice_of(chars, f + 1, e);
            match parse_chars(&rest) {
                Ok(x) => Ok(Some(Insn { id: VarId(id), ty: width, kind: InsnKind::Assign(x) })),
                Err(m) => Err(m),
            }
        },
    }
}

/// Reads a program. Fails, with a message, exactly when a line is not a
/// well formed statement, or a statement uses a variable no earlier one
/// defines or defines one twice.
pub fn parse_program(input: &str) -> (r: Result<Program, String>)
    ensures
        match program_from(input@, 0, Seq::empty()) {
            Some(p) => r matches Ok(x) && x@ == p,
            None => r is Err,
        },
{
    let chars = chars_of(input);
    let mut program = Program::new();
    let mut i: usize = 0;
    while i < chars.len()
        invariant
            i <= chars.len(),
            chars@ == input@,
            program_from(chars@, i as nat, program@) == program_from(chars@, 0, Seq::empty()),
        decreases chars.len() - i,
    {
        let e = line_end_of(&chars, i);
        let c = comment_start_of(&chars, i, e);
        match statement_of(&chars, i, c) {
            Ok(None) => {},
            Ok(Some(insn)) => {
                match program.push(insn) {
                    Ok(()) => {},
                    Err(m) => {
                        return Err(m);
                    },
                }
            },
            Err(m) => {
                return Err(m);
            },
        }
        if e >= chars.len() {
            return Ok(program);
        }
        i = e + 1;
    }
    Ok(program)
}

} // verus!
