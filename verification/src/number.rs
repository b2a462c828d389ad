//! Binary64 numbers carried as their bit patterns: classification and order.
//!
//! The library compares and passes on such numbers; it does no arithmetic on
//! them.
use vstd::prelude::*;

verus! {

/// A binary64 number, held as its bit pattern.
#[derive(Clone, Copy, Debug, PartialEq, Eq, Structural)]
pub struct Real {
    pub bits: u64,
}

/// The bit of the sign: 2^63.
pub const SIGN: u64 = 0x8000_0000_0000_0000;

/// The bits of positive infinity.
pub const INF: u64 = 0x7FF0_0000_0000_0000;

impl Real {
    /// The pattern without its sign.
    pub open spec fn magnitude(self) -> int {
        self.bits as int % SIGN as int
    }

    pub open spec fn nan(self) -> bool {
        self.magnitude() > INF
    }

    pub open spec fn finite(self) -> bool {
        self.magnitude() < INF
    }

    /// A number whose order is that of the values, for patterns that are not
    /// NaN. Both zeros rank 0.
    pub open spec fn rank(self) -> int {
        if self.bits >= SIGN {
            -self.magnitude()
        } else {
            self.magnitude()
        }
    }

    /// The comparison `self < other`.
    pub open spec fn lt(self, other: Real) -> bool {
        !self.nan() && !other.nan() && self.rank() < other.rank()
    }

    /// The comparison `self <= other`.
    pub open spec fn le(self, other: Real) -> bool {
        !self.nan() && !other.nan() && self.rank() <= other.rank()
    }

    /// The comparison `self == other`.
    pub open spec fn same(self, other: Real) -> bool {
        !self.nan() && !other.nan() && self.rank() == other.rank()
    }

    /// Above zero.
    pub open spec fn positive(self) -> bool {
        !self.nan() && self.rank() > 0
    }

    /// Zero, of either sign.
    pub open spec fn zero(self) -> bool {
        self.magnitude() == 0
    }

    /// The sign that `signum` reports: that of the bit, and none for NaN.
    pub open spec fn sign(self) -> int {
        if self.nan() {
            0
        } else if self.bits >= SIGN {
            -1
        } else {
            1
        }
    }

    /// Whether two numbers report the same sign. A NaN reports none.
    pub open spec fn same_sign(self, other: Real) -> bool {
        !self.nan() && !other.nan() && self.sign() == other.sign()
    }

    /// The number without its sign.
    pub open spec fn size(self) -> Real {
        Real { bits: self.magnitude() as u64 }
    }

    /// The number with the other sign.
    pub open spec fn opposite(self) -> Real {
        if self.bits >= SIGN {
            Real { bits: (self.bits - SIGN) as u64 }
        } else {
            Real { bits: (self.bits + SIGN) as u64 }
        }
    }

    /// The smaller of two numbers; of a number and a NaN, the number.
    pub open spec fn min_of(self, other: Real) -> Real {
        if self.nan() || other.lt(self) {
            other
        } else {
            self
        }
    }

    /// The larger of two numbers; of a number and a NaN, the number.
    pub open spec fn max_of(self, other: Real) -> Real {
        if self.nan() || self.lt(other) {
            other
        } else {
            self
        }
    }

    fn strip_sign(self) -> (m: u64)
        ensures
            m == self.magnitude(),
    {
        if self.bits >= SIGN {
            self.bits - SIGN
        } else {
            self.bits
        }
    }

    /// The number without its sign.
    pub fn abs(self) -> (r: Real)
        ensures
            r == self.size(),
    {
        Real { bits: self.strip_sign() }
    }

    /// The number with the other sign.
    pub fn negated(self) -> (r: Real)
        ensures
            r == self.opposite(),
    {
        if self.bits >= SIGN {
            Real { bits: self.bits - SIGN }
        } else {
            Real { bits: self.bits + SIGN }
        }
    }

    /// Whether two numbers report the same sign.
    pub fn agrees_in_sign(self, other: Real) -> (r: bool)
        ensures
            r == self.same_sign(other),
    {
        !self.is_nan() && !other.is_nan() && (self.bits >= SIGN) == (other.bits >= SIGN)
    }

    pub fn is_nan(self) -> (r: bool)
        ensures
            r == self.nan(),
    {
        self.strip_sign() > INF
    }

    pub fn is_finite(self) -> (r: bool)
        ensures
            r == self.finite(),
    {
        self.strip_sign() < INF
    }

    pub fn is_zero(self) -> (r: bool)
        ensures
            r == self.zero(),
    {
        self.strip_sign() == 0
    }

    /// Whether the number is above zero.
    pub fn is_positive(self) -> (r: bool)
        ensures
            r == self.positive(),
    {
        self.bits > 0 && self.bits <= INF
    }

    fn ranked(self) -> (r: i128)
        ensures
            r == self.rank(),
    {
        if self.bits >= SIGN {
            -((self.bits - SIGN) as i128)
        } else {
            self.bits as i128
        }
    }

    /// `self < other`.
    pub fn less(self, other: Real) -> (r: bool)
        ensures
            r == self.lt(other),
    {
        !self.is_nan() && !other.is_nan() && self.ranked() < other.ranked()
    }

    /// `self <= other`.
    pub fn at_most(self, other: Real) -> (r: bool)
        ensures
            r == self.le(other),
    {
        !self.is_nan() && !other.is_nan() && self.ranked() <= other.ranked()
    }

    /// The smaller of the two.
    pub fn min(self, other: Real) -> (r: Real)
        ensures
            r == self.min_of(other),
    {
        if self.is_nan() || other.less(self) {
            other
        } else {
            self
        }
    }

    /// The larger of the two.
    pub fn max(self, other: Real) -> (r: Real)
        ensures
            r == self.max_of(other),
    {
        if self.is_nan() || self.less(other) {
            other
        } else {
            self
        }
    }
}

impl Real {
    /// A rank that differs between any two patterns: negative below positive,
    /// and zeros and NaNs by their bits.
    pub open spec fn total_rank(self) -> int {
        if self.bits >= SIGN {
            -((self.bits - SIGN) as int) - 1
        } else {
            self.bits as int
        }
    }

    /// The rank in the order of all patterns.
    pub fn total_order(self) -> (r: i64)
        ensures
            r == self.total_rank(),
    {
        if self.bits >= SIGN {
            -((self.bits - SIGN) as i64) - 1
        } else {
            self.bits as i64
        }
    }

    /// The pattern of a rank.
    pub fn of_total_order(r: i64) -> (x: Real)
        ensures
            x.total_rank() == r,
    {
        if r < 0 {
            Real { bits: (-(r + 1)) as u64 + SIGN }
        } else {
            Real { bits: r as u64 }
        }
    }
}

/// Different patterns have different ranks, and ranks order numbers that are
/// not NaN as their values do, but for the two zeros.
pub proof fn law_total_rank(a: Real, b: Real)
    ensures
        a.total_rank() == b.total_rank() ==> a == b,
        a.lt(b) ==> a.total_rank() < b.total_rank(),
{
}

/// Comparison is a strict order on numbers that are not NaN, and NaN compares
/// with nothing.
pub proof fn law_order(a: Real, b: Real, c: Real)
    ensures
        !a.lt(a),
        a.lt(b) ==> !b.lt(a),
        a.lt(b) && b.lt(c) ==> a.lt(c),
        !a.nan() && !b.nan() ==> a.lt(b) || b.lt(a) || a.same(b),
        a.nan() || b.nan() ==> !a.lt(b) && !a.le(b) && !a.same(b),
        a.le(b) <==> a.lt(b) || a.same(b),
{
}

/// The smaller of two numbers is one of them and not above either; a NaN is
/// passed over.
pub proof fn law_min(a: Real, b: Real)
    ensures
        a.min_of(b) == a || a.min_of(b) == b,
        !a.nan() && !b.nan() ==> a.min_of(b).le(a) && a.min_of(b).le(b),
        a.nan() ==> a.min_of(b) == b,
        !a.nan() && b.nan() ==> a.min_of(b) == a,
{
}

/// Numbers above zero are ordered as their patterns are, those below zero the
/// other way round, and every number below zero lies below every other.
pub proof fn law_order_of_patterns(a: Real, b: Real)
    ensures
        a.bits <= INF && b.bits <= INF ==> (a.lt(b) <==> a.bits < b.bits) && (a.le(b) <==> a.bits
            <= b.bits),
        SIGN <= a.bits <= SIGN + INF && SIGN <= b.bits <= SIGN + INF ==> (a.lt(b) <==> a.bits
            > b.bits) && (a.le(b) <==> a.bits >= b.bits),
        SIGN < a.bits <= SIGN + INF && b.bits <= INF ==> a.lt(b) && !b.le(a),
        a.positive() <==> 0 < a.bits <= INF,
        a.zero() <==> a.bits == 0 || a.bits == SIGN,
        a.finite() <==> a.bits < INF || SIGN <= a.bits < SIGN + INF,
        a.nan() <==> INF < a.bits < SIGN || a.bits > SIGN + INF,
        a.positive() <==> (Real { bits: 0 }).lt(a),
{
}

/// The larger of two numbers is one of them and not below either; a NaN is
/// passed over.
pub proof fn law_max(a: Real, b: Real)
    ensures
        a.max_of(b) == a || a.max_of(b) == b,
        !a.nan() && !b.nan() ==> a.le(a.max_of(b)) && b.le(a.max_of(b)),
        a.nan() ==> a.max_of(b) == b,
        !a.nan() && b.nan() ==> a.max_of(b) == a,
{
}

/// Turning the sign changes the side of zero and nothing else, and twice is not
/// at all. A number without its sign is not below zero, and is the number or
/// its opposite.
pub proof fn law_signs(a: Real)
    ensures
        a.opposite() != a,
        a.opposite().opposite() == a,
        a.opposite().nan() <==> a.nan(),
        a.positive() ==> a.opposite().lt(Real { bits: 0 }),
        a.size() == a || a.size() == a.opposite(),
        !a.nan() ==> (Real { bits: 0 }).le(a.size()),
        a.same_sign(a) <==> !a.nan(),
        !a.same_sign(a.opposite()),
{
}

} // verus!
