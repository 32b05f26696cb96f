//! The pure functions that derived nodes apply to their inputs.
//!
//! A node's recompute function is data: an enum naming one operation,
//! together with its constant operand. Arithmetic wraps on overflow.
use vstd::prelude::*;

verus! {

/// A function of one value, as used by `map` on cells and streams.
#[derive(Clone, Copy, Debug, PartialEq, Eq, Structural)]
pub enum Fn1 {
    /// Returns its argument.
    Identity,
    /// Returns the constant, ignoring its argument (`mapTo`).
    Constant(i64),
    /// Adds the constant.
    AddConst(i64),
    /// Subtracts the constant.
    SubConst(i64),
    /// Multiplies by the constant.
    MulConst(i64),
    /// Divides by the constant, rounding toward zero; 0 where the quotient
    /// is undefined (a zero divisor) or does not fit.
    DivConst(i64),
    /// The remainder of the division by the constant, with the sign of the
    /// dividend; 0 where it is undefined.
    RemConst(i64),
}

/// A function of two values, as used by `lift`, `merge`, `snapshot`,
/// coalescers and accumulators.
#[derive(Clone, Copy, Debug, PartialEq, Eq, Structural)]
pub enum Fn2 {
    /// Sum of both.
    Add,
    /// Left minus right.
    Sub,
    /// Product of both.
    Mul,
    /// The left argument.
    Left,
    /// The right argument.
    Right,
    /// The smaller of both.
    Min,
    /// The larger of both.
    Max,
}

/// A test on one value, as used by `filter`.
#[derive(Clone, Copy, Debug, PartialEq, Eq, Structural)]
pub enum Pred {
    /// Holds of every value.
    Always,
    /// Holds of values below the constant.
    Less(i64),
    /// Holds of values above the constant.
    Greater(i64),
    /// Holds of the constant alone.
    Equal(i64),
    /// Holds of every value but the constant.
    NotEqual(i64),
}

impl Fn1 {
    pub open spec fn spec_apply(self, x: i64) -> i64 {
        match self {
            Fn1::Identity => x,
            Fn1::Constant(k) => k,
            Fn1::AddConst(k) => x.wrapping_add(k),
            Fn1::SubConst(k) => x.wrapping_sub(k),
            Fn1::MulConst(k) => x.wrapping_mul(k),
            Fn1::DivConst(k) => match x.checked_div(k) {
                Some(q) => q,
                None => 0,
            },
            Fn1::RemConst(k) => match x.checked_rem(k) {
                Some(q) => q,
                None => 0,
            },
        }
    }

    pub fn apply(&self, x: i64) -> (r: i64)
        ensures
            r == self.spec_apply(x),
    {
        match *self {
            Fn1::Identity => x,
            Fn1::Constant(k) => k,
            Fn1::AddConst(k) => x.wrapping_add(k),
            Fn1::SubConst(k) => x.wrapping_sub(k),
            Fn1::MulConst(k) => x.wrapping_mul(k),
            Fn1::DivConst(k) => match x.checked_div(k) {
                Some(q) => q,
                None => 0,
            },
            Fn1::RemConst(k) => match x.checked_rem(k) {
                Some(q) => q,
                None => 0,
            },
        }
    }
}

impl Fn2 {
    pub open spec fn spec_apply(self, x: i64, y: i64) -> i64 {
        match self {
            Fn2::Add => x.wrapping_add(y),
            Fn2::Sub => x.wrapping_sub(y),
            Fn2::Mul => x.wrapping_mul(y),
            Fn2::Left => x,
            Fn2::Right => y,
            Fn2::Min => if x <= y { x } else { y },
            Fn2::Max => if x >= y { x } else { y },
        }
    }

    /// The function gives the same result with its arguments swapped.
    pub open spec fn is_symmetric(self) -> bool {
        forall|x: i64, y: i64| #[trigger] self.spec_apply(x, y) == self.spec_apply(y, x)
    }

    pub fn apply(&self, x: i64, y: i64) -> (r: i64)
        ensures
            r == self.spec_apply(x, y),
    {
        match *self {
            Fn2::Add => x.wrapping_add(y),
            Fn2::Sub => x.wrapping_sub(y),
            Fn2::Mul => x.wrapping_mul(y),
            Fn2::Left => x,
            Fn2::Right => y,
            Fn2::Min => if x <= y { x } else { y },
            Fn2::Max => if x >= y { x } else { y },
        }
    }
}

impl Pred {
    pub open spec fn spec_test(self, x: i64) -> bool {
        match self {
            Pred::Always => true,
            Pred::Less(k) => x < k,
            Pred::Greater(k) => x > k,
            Pred::Equal(k) => x == k,
            Pred::NotEqual(k) => x != k,
        }
    }

    pub fn test(&self, x: i64) -> (r: bool)
        ensures
            r == self.spec_test(x),
    {
        match *self {
            Pred::Always => true,
            Pred::Less(k) => x < k,
            Pred::Greater(k) => x > k,
            Pred::Equal(k) => x == k,
            Pred::NotEqual(k) => x != k,
        }
    }
}

} // verus!
