use vstd::prelude::*;
use crate::statement::statement::{Float, Integer, Boolean};

verus! {

/// The sign bit of a single-precision float.
pub const SIGN_BIT: u32 = 0x8000_0000u32;

/// Arithmetic or logical negation.
pub trait Negate: Sized {
    /// Whether negating this value is defined.
    spec fn can_negate(&self) -> bool;

    /// The negated value.
    spec fn negated(&self) -> Self;

    fn negate(self) -> (r: Self)
        requires
            self.can_negate(),
        ensures
            r == self.negated(),
    ;
}

impl Negate for Float {
    /// Every float can be negated.
    open spec fn can_negate(&self) -> bool {
        true
    }

    /// The float with the sign bit flipped, as `-` on `f32` gives.
    open spec fn negated(&self) -> Float {
        Float(self.0 ^ SIGN_BIT)
    }

    fn negate(self) -> (r: Float)
        ensures
            r.0 == self.0 ^ 0x8000_0000u32,
    {
        Float(self.0 ^ SIGN_BIT)
    }
}

impl Negate for Integer {
    /// The smallest integer has no negation.
    open spec fn can_negate(&self) -> bool {
        self.0 != i32::MIN
    }

    open spec fn negated(&self) -> Integer {
        Integer((-self.0) as i32)
    }

    fn negate(self) -> (r: Integer)
        ensures
            r.0 == -self.0,
    {
        Integer(-self.0)
    }
}

impl Negate for Boolean {
    open spec fn can_negate(&self) -> bool {
        true
    }

    open spec fn negated(&self) -> Boolean {
        Boolean(!self.0)
    }

    fn negate(self) -> (r: Boolean)
        ensures
            r.0 == !self.0,
    {
        Boolean(!self.0)
    }
}

/// Negating twice gives back the value, for every value that can be negated.
pub proof fn law_negate_twice(f: Float, i: Integer, b: Boolean)
    requires
        i.can_negate(),
    ensures
        f.negated().negated() == f,
        i.negated().can_negate(),
        i.negated().negated() == i,
        b.negated().negated() == b,
{
    let x: u32 = f.0;
    assert((x ^ 0x8000_0000u32) ^ 0x8000_0000u32 == x) by (bit_vector);
}

/// Negation is arithmetic and logical negation: an integer and its negation add up
/// to zero, and only zero is its own negation; a boolean's negation is its opposite;
/// a float's negation differs from it in the sign bit and nowhere else.
pub proof fn law_negate_is_negation(f: Float, i: Integer, b: Boolean)
    requires
        i.can_negate(),
    ensures
        i.negated().0 == -i.0,
        i.0 + i.negated().0 == 0,
        (i.negated() == i) <==> i.0 == 0,
        b.negated().0 != b.0,
        f.negated().0 != f.0,
        f.negated().0 & 0x7fff_ffffu32 == f.0 & 0x7fff_ffffu32,
        (f.negated().0 & 0x8000_0000u32) != (f.0 & 0x8000_0000u32),
{
    let x: u32 = f.0;
    assert((x ^ 0x8000_0000u32) != x) by (bit_vector);
    assert((x ^ 0x8000_0000u32) & 0x7fff_ffffu32 == x & 0x7fff_ffffu32) by (bit_vector);
    assert(((x ^ 0x8000_0000u32) & 0x8000_0000u32) != (x & 0x8000_0000u32)) by (bit_vector);
}

} // verus!
