//! Single-precision numbers, held as their bit patterns.
//!
//! The operations are those of IEEE 754 with rounding to nearest, ties to
//! even. Their contracts speak of exact values, counted in steps of 2^-149
//! (see `rounding`).
use crate::rounding;
use core::cmp::Ordering;
use vstd::arithmetic::mul::*;
use vstd::arithmetic::power2::*;
use vstd::prelude::*;

verus! {

/// A single-precision number.
#[derive(Clone, Copy, Debug)]
pub struct Scalar {
    /// The sign bit, eight bits of exponent and 23 bits of fraction.
    pub bits: u32,
}

impl Scalar {
    /// The bit pattern without its sign.
    pub open spec fn magnitude(self) -> nat {
        if self.bits < 0x8000_0000 {
            self.bits as nat
        } else {
            (self.bits - 0x8000_0000) as nat
        }
    }

    pub open spec fn is_negative(self) -> bool {
        self.bits >= 0x8000_0000
    }

    pub open spec fn is_nan(self) -> bool {
        self.magnitude() > 0x7f80_0000
    }

    pub open spec fn is_infinite(self) -> bool {
        self.magnitude() == 0x7f80_0000
    }

    pub open spec fn is_finite(self) -> bool {
        self.magnitude() < 0x7f80_0000
    }

    /// The exact distance from zero, in steps; that of infinity is the size
    /// just past the largest finite one.
    pub open spec fn size(self) -> nat {
        size_of_magnitude(self.magnitude())
    }

    /// The exact value, in steps.
    pub open spec fn value(self) -> int {
        if self.is_negative() {
            -(self.size() as int)
        } else {
            self.size() as int
        }
    }
}

/// The exponent of two of one unit in the last place.
pub open spec fn unit_exponent(magnitude: nat) -> nat {
    if magnitude < 0x100_0000 {
        0
    } else {
        (magnitude / 0x80_0000 - 1) as nat
    }
}

/// The number of such units: 24 bits, the leading one included.
pub open spec fn significand(magnitude: nat) -> nat {
    (magnitude - 0x80_0000 * unit_exponent(magnitude)) as nat
}

pub open spec fn size_of_magnitude(magnitude: nat) -> nat {
    significand(magnitude) * pow2(unit_exponent(magnitude))
}

/// A unit count and an exponent make up the magnitude that they are read from.
pub proof fn lemma_magnitude_parts(e: nat, m: nat)
    requires
        m <= 0x100_0000,
        e > 0 ==> m >= 0x80_0000,
    ensures
        size_of_magnitude(e * 0x80_0000 + m) == m * pow2(e),
{
    let magnitude = e * 0x80_0000 + m;
    if m == 0x100_0000 {
        assert(unit_exponent(magnitude) == e + 1);
        assert(significand(magnitude) == 0x80_0000);
        lemma_pow2_unfold(e + 1);
    } else {
        assert(unit_exponent(magnitude) == e);
        assert(significand(magnitude) == m);
    }
}

/// The significand has at most 24 bits, and all of them where the exponent
/// is not the lowest.
pub proof fn lemma_significand_range(magnitude: nat)
    ensures
        significand(magnitude) < 0x100_0000,
        unit_exponent(magnitude) > 0 ==> significand(magnitude) >= 0x80_0000,
        magnitude == 0x80_0000 * unit_exponent(magnitude) + significand(magnitude),
        magnitude <= 0x7f80_0000 ==> unit_exponent(magnitude) <= 254,
        magnitude < 0x7f80_0000 ==> unit_exponent(magnitude) <= 253,
{
}

/// Larger patterns are larger numbers.
pub proof fn lemma_size_increases(a: nat, b: nat)
    requires
        a < b,
    ensures
        size_of_magnitude(a) < size_of_magnitude(b),
{
    lemma_significand_range(a);
    lemma_significand_range(b);
    let (m, n) = (significand(a), significand(b));
    let (d, e) = (unit_exponent(a), unit_exponent(b));
    lemma_pow2_pos(d);
    lemma_pow2_pos(e);
    assert(d <= e);
    if d == e {
        lemma_mul_strict_inequality(m as int, n as int, pow2(d) as int);
    } else {
        lemma_pow2_unfold(d + 1);
        if d + 1 < e {
            lemma_pow2_strictly_increases(d + 1, e);
        }
        assert(m * pow2(d) < n * pow2(e)) by (nonlinear_arith)
            requires
                m < 0x100_0000,
                n >= 0x80_0000,
                2 * pow2(d) <= pow2(e),
                pow2(d) > 0,
        ;
    }
}

pub proof fn lemma_infinite_size()
    ensures
        size_of_magnitude(0x7f80_0000) == rounding::infinity(),
{
    lemma2_to64();
    assert(unit_exponent(0x7f80_0000) == 254);
    assert(significand(0x7f80_0000) == 0x80_0000);
    lemma_pow2_adds(23, 254);
}

impl Scalar {
    /// The finite numbers are those whose size is below infinity, and zero
    /// has the empty pattern.
    pub proof fn lemma_size_kinds(self)
        ensures
            self.is_finite() <==> self.size() < rounding::infinity(),
            self.is_infinite() <==> self.size() == rounding::infinity(),
            self.size() == 0 <==> self.magnitude() == 0,
    {
        lemma_infinite_size();
        assert(size_of_magnitude(0) == 0);
        if self.magnitude() > 0 {
            lemma_size_increases(0, self.magnitude());
        }
        if self.is_finite() {
            lemma_size_increases(self.magnitude(), 0x7f80_0000);
        } else if !self.is_infinite() {
            lemma_size_increases(0x7f80_0000, self.magnitude());
        }
    }
}

impl Scalar {
    pub(crate) fn exponent(self) -> (e: u32)
        ensures
            e == unit_exponent(self.magnitude()),
            e <= 255,
    {
        let magnitude: u32 = self.unsigned();
        if magnitude < 0x100_0000 {
            0
        } else {
            magnitude / 0x80_0000 - 1
        }
    }

    pub(crate) fn unsigned(self) -> (m: u32)
        ensures
            m == self.magnitude(),
    {
        if self.bits < 0x8000_0000 {
            self.bits
        } else {
            self.bits - 0x8000_0000
        }
    }

    pub(crate) fn units(self) -> (m: u32)
        ensures
            m == significand(self.magnitude()),
            m < 0x100_0000,
    {
        proof {
            lemma_significand_range(self.magnitude());
        }
        self.unsigned() - 0x80_0000 * self.exponent()
    }

    /// `-self`.
    pub open spec fn negation(self) -> Scalar {
        if self.bits < 0x8000_0000 {
            Scalar { bits: (self.bits + 0x8000_0000) as u32 }
        } else {
            Scalar { bits: (self.bits - 0x8000_0000) as u32 }
        }
    }

    /// `-self`: the same number with the other sign.
    pub fn negated(self) -> (r: Scalar)
        ensures
            r == self.negation(),
            r.magnitude() == self.magnitude(),
            r.is_negative() != self.is_negative(),
            r.value() == -self.value(),
    {
        if self.bits < 0x8000_0000 {
            Scalar { bits: self.bits + 0x8000_0000 }
        } else {
            Scalar { bits: self.bits - 0x8000_0000 }
        }
    }

    /// The absolute value.
    pub fn abs(self) -> (r: Scalar)
        ensures
            r.magnitude() == self.magnitude(),
            !r.is_negative(),
            r.value() == self.size(),
    {
        Scalar { bits: self.unsigned() }
    }
}

impl Scalar {
    /// An integer that orders the numbers as their values do.
    pub open spec fn order_rank(self) -> int {
        if self.is_negative() {
            -(self.magnitude() as int)
        } else {
            self.magnitude() as int
        }
    }

    fn order_key(self) -> (k: i64)
        ensures
            k == self.order_rank(),
    {
        if self.bits >= 0x8000_0000 {
            -(self.unsigned() as i64)
        } else {
            self.unsigned() as i64
        }
    }

    pub(crate) fn not_a_number(self) -> (b: bool)
        ensures
            b == self.is_nan(),
    {
        self.unsigned() > 0x7f80_0000
    }

    /// Bit patterns and values order the numbers alike.
    pub proof fn lemma_order_rank(self, other: Scalar)
        ensures
            self.order_rank() < other.order_rank() <==> self.value() < other.value(),
            self.order_rank() == other.order_rank() <==> self.value() == other.value(),
    {
        self.lemma_size_kinds();
        other.lemma_size_kinds();
        if self.magnitude() < other.magnitude() {
            lemma_size_increases(self.magnitude(), other.magnitude());
        } else if other.magnitude() < self.magnitude() {
            lemma_size_increases(other.magnitude(), self.magnitude());
        }
        assert(self.size() < other.size() <==> self.magnitude() < other.magnitude());
        assert(self.size() == other.size() <==> self.magnitude() == other.magnitude());
    }

    /// `self <= other`.
    pub fn at_most(self, other: Scalar) -> (b: bool)
        ensures
            b == (!self.is_nan() && !other.is_nan() && self.value() <= other.value()),
    {
        proof {
            self.lemma_order_rank(other);
        }
        !self.not_a_number() && !other.not_a_number() && self.order_key() <= other.order_key()
    }

    /// How the values compare; nothing compares with what is not a number.
    pub open spec fn compared(self, other: Scalar) -> Option<Ordering> {
        if self.is_nan() || other.is_nan() {
            None
        } else if self.value() < other.value() {
            Some(Ordering::Less)
        } else if self.value() == other.value() {
            Some(Ordering::Equal)
        } else {
            Some(Ordering::Greater)
        }
    }
}

impl PartialEq for Scalar {
    fn eq(&self, other: &Scalar) -> (r: bool) {
        proof {
            self.lemma_order_rank(*other);
        }
        !self.not_a_number() && !other.not_a_number() && self.order_key() == other.order_key()
    }
}

impl vstd::std_specs::cmp::PartialEqSpecImpl for Scalar {
    open spec fn obeys_eq_spec() -> bool {
        true
    }

    open spec fn eq_spec(&self, other: &Scalar) -> bool {
        self.compared(*other) == Some(Ordering::Equal)
    }
}

impl PartialOrd for Scalar {
    fn partial_cmp(&self, other: &Scalar) -> (r: Option<Ordering>) {
        proof {
            self.lemma_order_rank(*other);
        }
        if self.not_a_number() || other.not_a_number() {
            None
        } else if self.order_key() < other.order_key() {
            Some(Ordering::Less)
        } else if self.order_key() == other.order_key() {
            Some(Ordering::Equal)
        } else {
            Some(Ordering::Greater)
        }
    }
}

impl vstd::std_specs::cmp::PartialOrdSpecImpl for Scalar {
    open spec fn obeys_partial_cmp_spec() -> bool {
        true
    }

    open spec fn partial_cmp_spec(&self, other: &Scalar) -> Option<Ordering> {
        self.compared(*other)
    }
}

} // verus!
