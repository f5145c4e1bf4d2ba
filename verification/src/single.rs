//! Single-precision numbers, held as their IEEE 754 bit patterns.
//!
//! Comparing two such numbers, or taking the larger of them, needs no floating
//! point arithmetic: the bit patterns decide. Numbers are ordered by `key`,
//! which is negative for negative numbers and grows with the magnitude. Both
//! zeros have the key 0. A NaN is unordered.
use vstd::prelude::*;

verus! {

/// The number of bit patterns without a sign bit.
pub const SIGN: u32 = 0x8000_0000;

/// The magnitude of an infinity. Larger magnitudes are NaNs.
pub const INFINITE: u32 = 0x7f80_0000;

/// A single-precision number.
#[derive(Clone, Copy, PartialEq, Eq, Structural, Debug)]
pub struct Single {
    /// The bit pattern: sign, exponent and fraction, from the top down.
    pub bits: u32,
}

/// How one number, or one note, stands to another in an order.
#[derive(Clone, Copy, PartialEq, Eq, Structural, Debug)]
pub enum Order {
    Less,
    Same,
    Greater,
}

impl Single {
    /// Positive zero.
    pub open spec fn zero_spec() -> Single {
        Single { bits: 0 }
    }

    /// The bit pattern without its sign.
    pub open spec fn magnitude_spec(self) -> u32 {
        if self.bits >= SIGN {
            (self.bits - SIGN) as u32
        } else {
            self.bits
        }
    }

    /// Whether the number is a NaN.
    pub open spec fn nan(self) -> bool {
        self.magnitude_spec() > INFINITE
    }

    /// Whether the number is neither an infinity nor a NaN.
    pub open spec fn finite(self) -> bool {
        self.magnitude_spec() < INFINITE
    }

    /// Where the number stands among all numbers that are not NaNs.
    pub open spec fn key(self) -> int {
        if self.bits >= SIGN {
            -(self.magnitude_spec() as int)
        } else {
            self.magnitude_spec() as int
        }
    }

    /// `self < other`; false when either is a NaN.
    pub open spec fn below(self, other: Single) -> bool {
        !self.nan() && !other.nan() && self.key() < other.key()
    }

    /// `self <= other`; false when either is a NaN.
    pub open spec fn at_most(self, other: Single) -> bool {
        !self.nan() && !other.nan() && self.key() <= other.key()
    }

    /// How `self` stands to `other`, where an unordered pair counts as equal.
    pub open spec fn against(self, other: Single) -> Order {
        if self.below(other) {
            Order::Less
        } else if other.below(self) {
            Order::Greater
        } else {
            Order::Same
        }
    }

    /// The larger of two numbers. A NaN gives way to the other number, and
    /// `self` is taken where neither is larger.
    pub open spec fn larger(self, other: Single) -> Single {
        if self.nan() || self.below(other) {
            other
        } else {
            self
        }
    }

    /// Whether `self - start`, computed in single precision, is at most zero.
    ///
    /// A difference is zero only for equal operands, and otherwise has the sign
    /// that their order gives. The difference of an infinity and itself is a
    /// NaN, which is not at most zero.
    pub open spec fn ends_by(self, start: Single) -> bool {
        self.at_most(start) && !(self.key() == start.key() && self.magnitude_spec() == INFINITE)
    }

    /// Positive zero.
    pub fn zero() -> (result: Single)
        ensures
            result == Single::zero_spec(),
            result.bits == 0,
    {
        Single { bits: 0 }
    }

    /// The bit pattern without its sign.
    pub fn magnitude(self) -> (result: u32)
        ensures
            result == self.magnitude_spec(),
    {
        if self.bits >= SIGN {
            self.bits - SIGN
        } else {
            self.bits
        }
    }

    /// Whether the number is a NaN.
    pub fn is_nan(self) -> (result: bool)
        ensures
            result == self.nan(),
    {
        self.magnitude() > INFINITE
    }

    /// `self < other`; false when either is a NaN.
    pub fn is_below(self, other: Single) -> (result: bool)
        ensures
            result == self.below(other),
    {
        if self.is_nan() || other.is_nan() {
            return false;
        }
        let left: u32 = self.magnitude();
        let right: u32 = other.magnitude();
        if self.bits >= SIGN {
            if other.bits >= SIGN {
                right < left
            } else {
                left > 0 || right > 0
            }
        } else {
            other.bits < SIGN && left < right
        }
    }

    /// How `self` stands to `other`, where an unordered pair counts as equal.
    pub fn order_against(self, other: Single) -> (result: Order)
        ensures
            result == self.against(other),
    {
        if self.is_below(other) {
            Order::Less
        } else if other.is_below(self) {
            Order::Greater
        } else {
            Order::Same
        }
    }

    /// The larger of two numbers. A NaN gives way to the other number, and
    /// `self` is taken where neither is larger.
    pub fn max(self, other: Single) -> (result: Single)
        ensures
            result == self.larger(other),
    {
        if self.is_nan() || self.is_below(other) {
            other
        } else {
            self
        }
    }

    /// Whether the span from `start` to `self` has no positive length: whether
    /// `self - start`, computed in single precision, is at most zero.
    pub fn is_over_by(self, start: Single) -> (result: bool)
        ensures
            result == self.ends_by(start),
    {
        if self.is_nan() || start.is_nan() || start.is_below(self) {
            return false;
        }
        !(self.magnitude() == INFINITE && self.bits == start.bits)
    }
}

/// The order of numbers that are not NaNs is total and transitive.
pub proof fn lemma_order_is_total(a: Single, b: Single, c: Single)
    requires
        !a.nan(),
        !b.nan(),
        !c.nan(),
    ensures
        a.at_most(b) || b.at_most(a),
        a.at_most(b) && b.at_most(c) ==> a.at_most(c),
        a.below(b) <==> !b.at_most(a),
{
}

/// The larger of two numbers is one of them, is below neither, and is a NaN
/// only when both are.
pub proof fn lemma_larger(a: Single, b: Single)
    ensures
        a.larger(b) == a || a.larger(b) == b,
        !a.larger(b).below(a),
        !a.larger(b).below(b),
        a.larger(b).nan() <==> a.nan() && b.nan(),
{
}

/// What bit patterns mean: the lower 31 bits are the magnitude, which is that of
/// an infinity at the largest exponent and of a NaN beyond it.
pub proof fn lemma_bits_of_magnitude(a: Single)
    ensures
        a.magnitude_spec() == a.bits % 0x8000_0000,
        a.nan() <==> a.bits % 0x8000_0000 > 0x7f80_0000,
        a.finite() <==> a.bits % 0x8000_0000 < 0x7f80_0000,
{
}

/// How bit patterns order numbers: positive ones rise with their bits, negative
/// ones fall, negative ones are below positive ones but for the two zeros, and a
/// NaN is below nothing and above nothing.
pub proof fn lemma_bits_decide_the_order(a: Single, b: Single)
    ensures
        a.bits <= 0x7f80_0000 && b.bits <= 0x7f80_0000 ==> (a.below(b) <==> a.bits < b.bits),
        0x8000_0000 <= a.bits <= 0xff80_0000 && 0x8000_0000 <= b.bits <= 0xff80_0000 ==> (a.below(
            b,
        ) <==> b.bits < a.bits),
        0x8000_0000 <= a.bits <= 0xff80_0000 && b.bits <= 0x7f80_0000 ==> (a.below(b) <==> !(a.bits
            == 0x8000_0000 && b.bits == 0)),
        a.bits < 0x8000_0000 && b.bits >= 0x8000_0000 ==> !a.below(b),
        a.bits % 0x8000_0000 > 0x7f80_0000 || b.bits % 0x8000_0000 > 0x7f80_0000 ==> !a.below(b)
            && !a.at_most(b),
        a.bits % 0x8000_0000 <= 0x7f80_0000 && b.bits % 0x8000_0000 <= 0x7f80_0000 ==> (a.at_most(b)
            <==> !b.below(a)),
{
}

/// Of two numbers one is less, or the other, or neither, as seen from both sides.
pub proof fn lemma_order_seen_from_both_sides(a: Single, b: Single)
    ensures
        a.against(b) == Order::Less <==> a.below(b),
        a.against(b) == Order::Greater <==> b.below(a),
        a.against(b) == Order::Same <==> !a.below(b) && !b.below(a),
        a.against(b) == Order::Less <==> b.against(a) == Order::Greater,
{
}

/// Which of two numbers the larger one is: the one above the other, the other one
/// of a NaN, and the first where neither is above.
pub proof fn lemma_which_is_larger(a: Single, b: Single)
    ensures
        a.below(b) ==> a.larger(b) == b,
        b.below(a) ==> a.larger(b) == a,
        a.bits % 0x8000_0000 > 0x7f80_0000 ==> a.larger(b) == b,
        a.bits % 0x8000_0000 <= 0x7f80_0000 && !a.below(b) ==> a.larger(b) == a,
{
}

/// When a span is over as it starts: where its end is not above its start, but for
/// NaNs and for an infinity and itself, whose difference is a NaN.
pub proof fn lemma_when_a_span_is_over(end: Single, start: Single)
    ensures
        end.ends_by(start) <==> {
            &&& end.bits % 0x8000_0000 <= 0x7f80_0000
            &&& start.bits % 0x8000_0000 <= 0x7f80_0000
            &&& !start.below(end)
            &&& !(end.bits == start.bits && (end.bits == 0x7f80_0000 || end.bits == 0xff80_0000))
        },
{
}

} // verus!
