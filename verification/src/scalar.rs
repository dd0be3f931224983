//! Single-precision values as bit patterns.
//!
//! The library orders, bounds and carries IEEE-754 single-precision values; it never
//! computes with them. A `Scalar` holds the 32 bits of such a value, and everything that
//! can be said of it here is said of the bits.

use vstd::prelude::*;

verus! {

/// A single-precision value, as its IEEE-754 bit pattern.
#[derive(Clone, Copy, Debug, PartialEq, Eq, Structural)]
pub struct Scalar {
    pub bits: u32,
}

/// The pattern of one.
pub const ONE: u32 = 0x3f80_0000;

/// The pattern of positive infinity.
pub const INFINITY: u32 = 0x7f80_0000;

/// The pattern of negative infinity.
pub const NEG_INFINITY: u32 = 0xff80_0000;

impl Scalar {
    /// The sign bit is set.
    pub open spec fn negative(self) -> bool {
        self.bits >= 0x8000_0000
    }

    /// The pattern without its sign bit.
    pub open spec fn magnitude(self) -> int {
        if self.negative() {
            self.bits - 0x8000_0000
        } else {
            self.bits as int
        }
    }

    /// Where the value stands among all values: patterns of one sign grow with their
    /// magnitude, so the signed magnitude orders them. Both zeros stand at 0.
    pub open spec fn rank(self) -> int {
        if self.negative() {
            -self.magnitude()
        } else {
            self.magnitude()
        }
    }

    /// The pattern is not a number.
    pub open spec fn nan(self) -> bool {
        self.magnitude() > 0x7f80_0000
    }

    /// Neither infinite nor not a number.
    pub open spec fn finite(self) -> bool {
        self.magnitude() < 0x7f80_0000
    }

    /// `self < other` as numbers; false when either is not a number.
    pub open spec fn less(self, other: Self) -> bool {
        !self.nan() && !other.nan() && self.rank() < other.rank()
    }

    /// `self <= other` as numbers; false when either is not a number.
    pub open spec fn at_most(self, other: Self) -> bool {
        !self.nan() && !other.nan() && self.rank() <= other.rank()
    }

    /// The value is in [0, 1).
    pub open spec fn in_unit(self) -> bool {
        (Scalar { bits: 0 }).at_most(self) && self.less(Scalar { bits: ONE })
    }

    /// Whether the value is in [0, 1).
    pub fn is_in_unit(self) -> (r: bool)
        ensures
            r == self.in_unit(),
    {
        (Scalar { bits: 0 }).is_at_most(self) && self.is_less(Scalar { bits: ONE })
    }

    /// The value's rank.
    pub fn order_key(self) -> (r: i32)
        ensures
            r == self.rank(),
    {
        if self.bits >= 0x8000_0000 {
            -((self.bits - 0x8000_0000) as i32)
        } else {
            self.bits as i32
        }
    }

    /// Whether the pattern is not a number.
    pub fn is_nan(self) -> (r: bool)
        ensures
            r == self.nan(),
    {
        if self.bits >= 0x8000_0000 {
            self.bits > 0xff80_0000
        } else {
            self.bits > 0x7f80_0000
        }
    }

    /// Whether the value is finite.
    pub fn is_finite(self) -> (r: bool)
        ensures
            r == self.finite(),
    {
        if self.bits >= 0x8000_0000 {
            self.bits < 0xff80_0000
        } else {
            self.bits < 0x7f80_0000
        }
    }

    /// Compares as numbers.
    pub fn is_less(self, other: Self) -> (r: bool)
        ensures
            r == self.less(other),
    {
        !self.is_nan() && !other.is_nan() && self.order_key() < other.order_key()
    }

    /// Compares as numbers.
    pub fn is_at_most(self, other: Self) -> (r: bool)
        ensures
            r == self.at_most(other),
    {
        !self.is_nan() && !other.is_nan() && self.order_key() <= other.order_key()
    }

    /// The pattern with its sign bit cleared.
    pub open spec fn absolute(self) -> Self {
        Scalar { bits: self.magnitude() as u32 }
    }

    /// The absolute value.
    pub fn abs(self) -> (r: Self)
        ensures
            r == self.absolute(),
    {
        if self.bits >= 0x8000_0000 {
            Scalar { bits: self.bits - 0x8000_0000 }
        } else {
            self
        }
    }

    /// The lower of two values; where one is not a number, the other.
    pub open spec fn lower(self, other: Self) -> Self {
        if self.nan() {
            other
        } else if other.less(self) {
            other
        } else {
            self
        }
    }

    /// The higher of two values; where one is not a number, the other.
    pub open spec fn higher(self, other: Self) -> Self {
        if self.nan() {
            other
        } else if self.less(other) {
            other
        } else {
            self
        }
    }

    /// The lower of two values; where one is not a number, the other.
    pub fn min(self, other: Self) -> (r: Self)
        ensures
            r == self.lower(other),
    {
        if self.is_nan() || other.is_less(self) {
            other
        } else {
            self
        }
    }

    /// The higher of two values; where one is not a number, the other.
    pub fn max(self, other: Self) -> (r: Self)
        ensures
            r == self.higher(other),
    {
        if self.is_nan() || self.is_less(other) {
            other
        } else {
            self
        }
    }
}

/// `m` is the highest of `values`, and of zero.
pub open spec fn is_largest(values: Seq<Scalar>, m: Scalar) -> bool {
    &&& !m.nan()
    &&& 0 <= m.rank()
    &&& forall|i: int| 0 <= i < values.len() && !(#[trigger] values[i]).nan() ==> values[i].rank() <= m.rank()
    &&& m.bits == 0 || exists|i: int| 0 <= i < values.len() && #[trigger] values[i] == m
}

/// The highest of `values`, or zero where none is above zero; what is not a number does
/// not count.
pub fn largest(values: &[Scalar]) -> (m: Scalar)
    ensures
        is_largest(values@, m),
{
    let mut m = Scalar { bits: 0 };
    let mut i: usize = 0;
    while i < values.len()
        invariant
            i <= values.len(),
            is_largest(values@.take(i as int), m),
        decreases values.len() - i,
    {
        let ghost seen = values@.take(i as int);
        let ghost now = values@.take(i + 1);
        let ghost before = m;
        let v = values[i];
        m = m.max(v);
        proof {
            assert(now[i as int] == v);
            assert forall|j: int| 0 <= j < now.len() && !(#[trigger] now[j]).nan() implies now[j].rank()
                <= m.rank() by {
                if j < i {
                    assert(seen[j] == now[j]);
                }
            }
            if m != v && before.bits != 0 {
                let j = choose|j: int| 0 <= j < seen.len() && #[trigger] seen[j] == before;
                assert(now[j] == m);
            }
        }
        i = i + 1;
    }
    assert(values@.take(values.len() as int) =~= values@);
    m
}

/// Law: of two numbers without a sign the one with the smaller pattern is less, of two with a
/// sign the one with the larger; a number with a sign is less than one without, unless both are
/// zero.
pub proof fn law_patterns_order_numbers(a: Scalar, b: Scalar)
    requires
        !a.nan(),
        !b.nan(),
    ensures
        a.bits < 0x8000_0000 && b.bits < 0x8000_0000 ==> (a.less(b) <==> a.bits < b.bits),
        0x8000_0000 <= a.bits && 0x8000_0000 <= b.bits ==> (a.less(b) <==> b.bits < a.bits),
        0x8000_0000 <= a.bits && b.bits < 0x8000_0000 ==> (a.less(b) <==> a.bits != 0x8000_0000
            || b.bits != 0),
        a.bits < 0x8000_0000 && 0x8000_0000 <= b.bits ==> !a.less(b),
        a.at_most(b) <==> !b.less(a),
{
}

/// Law: numbers are ordered: each two compare one way only, or are the same number, and the
/// order carries over.
pub proof fn law_numbers_are_ordered(a: Scalar, b: Scalar, c: Scalar)
    requires
        !a.nan(),
        !b.nan(),
        !c.nan(),
    ensures
        !(a.less(b) && b.less(a)),
        a.less(b) || b.less(a) || a == b || (a.bits == 0 && b.bits == 0x8000_0000) || (b.bits == 0
            && a.bits == 0x8000_0000),
        a.less(b) && b.less(c) ==> a.less(c),
        a.at_most(b) && b.at_most(c) ==> a.at_most(c),
        a.at_most(b) <==> a.less(b) || a == b || (a.bits % 0x8000_0000 == 0 && b.bits % 0x8000_0000
            == 0),
{
}

/// Law: what is not a number compares with nothing, and only a pattern whose exponent is all
/// ones and whose fraction is not zero is not a number.
pub proof fn law_no_number_compares(a: Scalar, b: Scalar)
    ensures
        a.nan() ==> !a.less(b) && !b.less(a) && !a.at_most(b) && !b.at_most(a),
        a.nan() <==> 0x7f80_0000 < a.bits % 0x8000_0000,
        a.finite() <==> a.bits % 0x8000_0000 < 0x7f80_0000,
        a.finite() <==> (Scalar { bits: 0xff80_0000 }).less(a) && a.less(
            Scalar { bits: 0x7f80_0000 },
        ),
{
}

/// Law: the lower of two numbers is one of them and at most both, the higher is one of them and
/// both are at most it; what is not a number gives way.
pub proof fn law_lower_and_higher_bound(a: Scalar, b: Scalar)
    ensures
        a.lower(b) == a || a.lower(b) == b,
        a.higher(b) == a || a.higher(b) == b,
        !a.nan() && !b.nan() ==> a.lower(b).at_most(a) && a.lower(b).at_most(b),
        !a.nan() && !b.nan() ==> a.at_most(a.higher(b)) && b.at_most(a.higher(b)),
        a.nan() ==> a.lower(b) == b && a.higher(b) == b,
        b.nan() ==> a.lower(b) == a || a.nan(),
        b.nan() ==> a.higher(b) == a || a.nan(),
{
}

/// Law: an absolute value has no sign and differs from the value in nothing else.
pub proof fn law_absolute_drops_the_sign(a: Scalar)
    ensures
        a.absolute().bits == a.bits % 0x8000_0000,
        a.absolute().absolute() == a.absolute(),
        !a.nan() ==> (Scalar { bits: 0 }).at_most(a.absolute()),
{
}

/// Law: a value in the unit interval is at least zero and below one; patterns from that of zero
/// up to that of one are, and besides them only the zero with a sign.
pub proof fn law_unit_patterns(a: Scalar)
    ensures
        a.in_unit() <==> a.bits < 0x3f80_0000 || a.bits == 0x8000_0000,
{
}

/// Law: no value is above the highest, which is zero or one of the values; one more value makes the
/// higher of the two the highest.
pub proof fn law_largest_bounds_all(values: Seq<Scalar>, m: Scalar, v: Scalar)
    requires
        is_largest(values, m),
    ensures
        forall|i: int| 0 <= i < values.len() ==> !m.less(#[trigger] values[i]),
        (Scalar { bits: 0 }).at_most(m),
        m.bits == 0 || values.contains(m),
        is_largest(values.push(v), m.higher(v)),
        v.nan() ==> is_largest(values.push(v), m),
{
    let more = values.push(v);
    let h = m.higher(v);
    assert forall|i: int| 0 <= i < more.len() && !(#[trigger] more[i]).nan() implies more[i].rank()
        <= h.rank() by {
        if i < values.len() {
            assert(more[i] == values[i]);
        }
    }
    if h != v && m.bits != 0 {
        let i = choose|i: int| 0 <= i < values.len() && #[trigger] values[i] == m;
        assert(more[i] == m);
    }
    assert(more[values.len() as int] == v);
}

} // verus!
