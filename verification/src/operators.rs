//! The standard operators on expressions, as the named builders: `+`, `-`,
//! `*`, `&`, `|`, `^` between expressions, `!` and unary `-`, a word times
//! an expression, and a word as a constant. Their values are stated by the
//! `ensures` of each method; the operator traits' own specifications are
//! not used (`obeys_..` is false).
use vstd::prelude::*;
use crate::expr::{Expr, Term};
use crate::product::product_spec;

verus! {

impl core::ops::Add for Expr {
    type Output = Expr;

    /// The sum of the two expressions.
    fn add(self, rhs: Expr) -> (r: Expr)
        ensures
            r@ == Term::Add(seq![self@, rhs@]),
    {
        Expr::add(self, rhs)
    }
}

impl vstd::std_specs::ops::AddSpecImpl for Expr {
    open spec fn obeys_add_spec() -> bool {
        false
    }

    open spec fn add_req(self, rhs: Expr) -> bool {
        true
    }

    open spec fn add_spec(self, rhs: Expr) -> Expr {
        vstd::pervasive::arbitrary()
    }
}

impl core::ops::Sub for Expr {
    type Output = Expr;

    /// The first expression plus the negation of the second.
    fn sub(self, rhs: Expr) -> (r: Expr)
        ensures
            r@ == Term::Add(seq![self@, Term::Scale(u64::MAX, Box::new(rhs@))]),
    {
        Expr::sub(self, rhs)
    }
}

impl vstd::std_specs::ops::SubSpecImpl for Expr {
    open spec fn obeys_sub_spec() -> bool {
        false
    }

    open spec fn sub_req(self, rhs: Expr) -> bool {
        true
    }

    open spec fn sub_spec(self, rhs: Expr) -> Expr {
        vstd::pervasive::arbitrary()
    }
}

impl core::ops::Mul for Expr {
    type Output = Expr;

    /// The canonical product of the two expressions.
    fn mul(self, rhs: Expr) -> (r: Expr)
        ensures
            r@ == product_spec(seq![self@, rhs@]),
    {
        Expr::mul(self, rhs)
    }
}

impl vstd::std_specs::ops::MulSpecImpl for Expr {
    open spec fn obeys_mul_spec() -> bool {
        false
    }

    open spec fn mul_req(self, rhs: Expr) -> bool {
        true
    }

    open spec fn mul_spec(self, rhs: Expr) -> Expr {
        vstd::pervasive::arbitrary()
    }
}

impl core::ops::BitAnd for Expr {
    type Output = Expr;

    /// The bitwise and of the two expressions.
    fn bitand(self, rhs: Expr) -> (r: Expr)
        ensures
            r@ == Term::And(seq![self@, rhs@]),
    {
        Expr::bitand(self, rhs)
    }
}

impl vstd::std_specs::ops::BitAndSpecImpl for Expr {
    open spec fn obeys_bitand_spec() -> bool {
        false
    }

    open spec fn bitand_req(self, rhs: Expr) -> bool {
        true
    }

    open spec fn bitand_spec(self, rhs: Expr) -> Expr {
        vstd::pervasive::arbitrary()
    }
}

impl core::ops::BitOr for Expr {
    type Output = Expr;

    /// The bitwise or of the two expressions.
    fn bitor(self, rhs: Expr) -> (r: Expr)
        ensures
            r@ == Term::Or(seq![self@, rhs@]),
    {
        Expr::bitor(self, rhs)
    }
}

impl vstd::std_specs::ops::BitOrSpecImpl for Expr {
    open spec fn obeys_bitor_spec() -> bool {
        false
    }

    open spec fn bitor_req(self, rhs: Expr) -> bool {
        true
    }

    open spec fn bitor_spec(self, rhs: Expr) -> Expr {
        vstd::pervasive::arbitrary()
    }
}

impl core::ops::BitXor for Expr {
    type Output = Expr;

    /// The bitwise exclusive or of the two expressions.
    fn bitxor(self, rhs: Expr) -> (r: Expr)
        ensures
            r@ == Term::Xor(seq![self@, rhs@]),
    {
        Expr::bitxor(self, rhs)
    }
}

impl vstd::std_specs::ops::BitXorSpecImpl for Expr {
    open spec fn obeys_bitxor_spec() -> bool {
        false
    }

    open spec fn bitxor_req(self, rhs: Expr) -> bool {
        true
    }

    open spec fn bitxor_spec(self, rhs: Expr) -> Expr {
        vstd::pervasive::arbitrary()
    }
}

impl core::ops::Not for Expr {
    type Output = Expr;

    /// The bitwise complement of the expression.
    fn not(self) -> (r: Expr)
        ensures
            r@ == Term::Not(Box::new(self@)),
    {
        Expr::not(self)
    }
}

impl vstd::std_specs::ops::NotSpecImpl for Expr {
    open spec fn obeys_not_spec() -> bool {
        false
    }

    open spec fn not_req(self) -> bool {
        true
    }

    open spec fn not_spec(self) -> Expr {
        vstd::pervasive::arbitrary()
    }
}

impl core::ops::Neg for Expr {
    type Output = Expr;

    /// The arithmetic negation of the expression.
    fn neg(self) -> (r: Expr)
        ensures
            r@ == Term::Scale(u64::MAX, Box::new(self@)),
    {
        Expr::neg(self)
    }
}

impl vstd::std_specs::ops::NegSpecImpl for Expr {
    open spec fn obeys_neg_spec() -> bool {
        false
    }

    open spec fn neg_req(self) -> bool {
        true
    }

    open spec fn neg_spec(self) -> Expr {
        vstd::pervasive::arbitrary()
    }
}

impl core::ops::Mul<Expr> for u64 {
    type Output = Expr;

    /// The expression scaled by the word (zero and one folded away).
    fn mul(self, rhs: Expr) -> (r: Expr)
        ensures
            r@ == (if self == 0 {
                Term::Const(0)
            } else if self == 1 {
                rhs@
            } else {
                Term::Scale(self, Box::new(rhs@))
            }),
    {
        Expr::scale(self, rhs)
    }
}

impl vstd::std_specs::ops::MulSpecImpl<Expr> for u64 {
    open spec fn obeys_mul_spec() -> bool {
        false
    }

    open spec fn mul_req(self, rhs: Expr) -> bool {
        true
    }

    open spec fn mul_spec(self, rhs: Expr) -> Expr {
        vstd::pervasive::arbitrary()
    }
}

impl From<u64> for Expr {
    /// The constant word.
    fn from(value: u64) -> (r: Expr)
        ensures
            r@ == Term::Const(value),
    {
        Expr::Const(value)
    }
}

impl vstd::std_specs::convert::FromSpecImpl<u64> for Expr {
    open spec fn obeys_from_spec() -> bool {
        true
    }

    open spec fn from_spec(v: u64) -> Expr {
        Expr::Const(v)
    }
}

} // verus!
