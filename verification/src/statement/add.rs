use vstd::prelude::*;
use super::statement::Integer;

verus! {

/// Addition of two values.
pub trait Add<Rhs> {
    type Output;

    /// Whether the sum is defined.
    spec fn can_add(&self, rhs: &Rhs) -> bool;

    /// The sum.
    spec fn sum(&self, rhs: &Rhs) -> Self::Output;

    fn add(&self, rhs: &Rhs) -> (r: Self::Output)
        requires
            self.can_add(rhs),
        ensures
            r == self.sum(rhs),
    ;
}

impl Add<Integer> for Integer {
    type Output = Integer;

    /// The sum must fit in 32 bits.
    open spec fn can_add(&self, rhs: &Integer) -> bool {
        i32::MIN <= self.0 + rhs.0 <= i32::MAX
    }

    open spec fn sum(&self, rhs: &Integer) -> Integer {
        Integer((self.0 + rhs.0) as i32)
    }

    fn add(&self, rhs: &Integer) -> (r: Integer)
        ensures
            r.0 == self.0 + rhs.0,
    {
        Integer(self.0 + rhs.0)
    }
}

/// Adding integers is arithmetic addition: where the sum fits in 32 bits it is
/// `x + y`, the same whichever comes first, and adding zero changes nothing.
pub proof fn law_integer_add_is_arithmetic(x: Integer, y: Integer)
    requires
        x.can_add(&y),
    ensures
        x.sum(&y).0 == x.0 + y.0,
        y.can_add(&x),
        x.sum(&y) == y.sum(&x),
        x.can_add(&Integer(0)) && x.sum(&Integer(0)) == x,
        x.sum(&y).0 - y.0 == x.0,
{
}

} // verus!
