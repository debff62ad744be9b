//! What the numbers and the operations on them amount to, in exact values.
use crate::arithmetic;
use crate::rounding;
use crate::scalar;
use crate::scalar::Scalar;
use core::cmp::Ordering;
use vstd::arithmetic::power2::*;
use vstd::prelude::*;
use vstd::std_specs::cmp::{PartialEqSpec, PartialOrdSpec};

verus! {

/// How far `a` is from `b`.
pub open spec fn apart_by(a: int, b: int) -> int {
    if a < b {
        b - a
    } else {
        a - b
    }
}

/// No number is nearer to `v` steps than `s`.
pub open spec fn is_nearest(s: Scalar, v: int) -> bool {
    &&& !s.is_nan()
    &&& forall|c: Scalar|
        !(#[trigger] c.is_nan()) ==> apart_by(s.value(), v) <= apart_by(c.value(), v)
}

/// The value of a bit pattern: with an exponent field of zero the fraction
/// counts steps, otherwise it comes on top of 2^23, and each further exponent
/// doubles the number.
pub proof fn law_value_of_bits(s: Scalar)
    requires
        s.bits % 0x8000_0000 < 0x7f80_0000,
    ensures
        ({
            let field = (s.bits % 0x8000_0000) / 0x80_0000;
            let fraction = s.bits % 0x80_0000;
            let size = if field == 0 {
                fraction as int
            } else {
                (0x80_0000 + fraction) * pow2((field - 1) as nat)
            };
            &&& !s.is_nan()
            &&& s.value() == if s.bits < 0x8000_0000 {
                size
            } else {
                -size
            }
        }),
{
    let m = (s.bits % 0x8000_0000) as nat;
    let field = m / 0x80_0000;
    let fraction = m % 0x80_0000;
    assert(s.magnitude() == m);
    assert(s.bits % 0x80_0000 == fraction);
    lemma2_to64();
    if field > 0 {
        assert(m == (field - 1) * 0x80_0000 + (0x80_0000 + fraction));
        scalar::lemma_magnitude_parts((field - 1) as nat, 0x80_0000 + fraction);
    } else {
        scalar::lemma_magnitude_parts(0, fraction);
        assert(fraction * pow2(0) == fraction);
    }
}

proof fn lemma_rounded_is_nearest(s: Scalar, v: int)
    requires
        !s.is_nan(),
        s.value() == rounding::round(v),
    ensures
        is_nearest(s, v),
{
    let size = (if v < 0 {
        -v
    } else {
        v
    }) as nat;
    assert forall|c: Scalar| !(#[trigger] c.is_nan()) implies apart_by(s.value(), v) <= apart_by(
        c.value(),
        v,
    ) by {
        let m = scalar::significand(c.magnitude());
        let e = scalar::unit_exponent(c.magnitude());
        scalar::lemma_significand_range(c.magnitude());
        c.lemma_size_kinds();
        if c.is_finite() {
            rounding::lemma_round_nearest(size, m, e);
        } else {
            rounding::lemma_round_nearest(size, 0, 0);
        }
        rounding::lemma_round_nearest(size, 0, 0);
    }
}

/// Up to 2^24 in size whole numbers are exact.
proof fn lemma_whole_number_exact(n: int)
    requires
        -0x100_0000 <= n <= 0x100_0000,
    ensures
        rounding::round(n * pow2(149)) == n * pow2(149),
{
    let m = (if n < 0 {
        -n
    } else {
        n
    }) as nat;
    lemma_pow2_pos(149);
    assert((-n) * pow2(149) == -(n * pow2(149))) by (nonlinear_arith);
    assert(n < 0 ==> n * pow2(149) < 0) by (nonlinear_arith)
        requires
            pow2(149) > 0,
    ;
    assert(n >= 0 ==> n * pow2(149) >= 0) by (nonlinear_arith)
        requires
            pow2(149) > 0,
    ;
    if m < 0x100_0000 {
        rounding::lemma_round_exact(m, 149);
    } else {
        lemma_pow2_unfold(150);
        rounding::lemma_round_exact(0x80_0000, 150);
        assert(0x80_0000 * pow2(150) == 0x100_0000 * pow2(149));
    }
}

/// The number that stands for a whole number is a nearest one, and exact up to
/// 2^24 in size.
pub proof fn law_whole_numbers(s: Scalar, n: isize)
    requires
        arithmetic::is_number(s, n),
    ensures
        is_nearest(s, n * pow2(149)),
        -0x100_0000 <= n <= 0x100_0000 ==> s.value() == n * pow2(149),
        s.bits < 0x8000_0000 <==> n >= 0,
{
    lemma_rounded_is_nearest(s, n * pow2(149));
    if -0x100_0000 <= n <= 0x100_0000 {
        lemma_whole_number_exact(n as int);
    }
}

/// A sum of finite numbers is a number nearest to the exact sum, and the exact
/// sum itself where that is a number. It does not depend on the order, and a
/// sum of zero has a negative sign only where both numbers have.
pub proof fn law_sums(r: Scalar, a: Scalar, b: Scalar)
    requires
        a.is_finite(),
        b.is_finite(),
        arithmetic::is_sum(r, a, b),
    ensures
        is_nearest(r, a.value() + b.value()),
        forall|c: Scalar|
            !(#[trigger] c.is_nan()) && c.value() == a.value() + b.value() ==> r.value()
                == c.value(),
        forall|q: Scalar|
            arithmetic::is_sum(q, b, a) ==> #[trigger] q.value() == r.value(),
        r.value() == 0 ==> (r.bits >= 0x8000_0000 <==> a.bits >= 0x8000_0000 && b.bits
            >= 0x8000_0000),
{
    lemma_rounded_is_nearest(r, a.value() + b.value());
    assert forall|c: Scalar|
        !(#[trigger] c.is_nan()) && c.value() == a.value() + b.value() implies r.value()
        == c.value() by {
        assert(apart_by(r.value(), a.value() + b.value()) <= apart_by(
            c.value(),
            a.value() + b.value(),
        ));
    }
}

/// Numbers compare as their values do; nothing compares with what is not a
/// number.
pub proof fn law_comparisons(a: Scalar, b: Scalar)
    ensures
        a.compared(b) == if a.bits % 0x8000_0000 > 0x7f80_0000 || b.bits % 0x8000_0000
            > 0x7f80_0000 {
            None
        } else if a.value() < b.value() {
            Some(Ordering::Less)
        } else if a.value() == b.value() {
            Some(Ordering::Equal)
        } else {
            Some(Ordering::Greater)
        },
        a.partial_cmp_spec(&b) == a.compared(b),
        a.eq_spec(&b) <==> !a.is_nan() && !b.is_nan() && a.value() == b.value(),
{
}

/// A sum with something infinite in it is that infinity, and no number where
/// there are two of different signs, or where one of the two is no number.
pub proof fn law_sums_past_the_numbers(r: Scalar, a: Scalar, b: Scalar)
    requires
        arithmetic::is_sum(r, a, b),
        !a.is_finite() || !b.is_finite(),
    ensures
        r.is_nan() <==> a.is_nan() || b.is_nan() || (a.is_infinite() && b.is_infinite() && a != b),
        !r.is_nan() ==> r == if a.is_infinite() {
            a
        } else {
            b
        },
{
}

/// Twice the half of a number is the number, or one step off where the number
/// of steps is odd; the half is then even.
pub proof fn law_halves(v: int)
    ensures
        v % 2 == 0 ==> 2 * arithmetic::half(v) == v,
        v % 2 != 0 ==> apart_by(2 * arithmetic::half(v), v) == 1 && arithmetic::half(v) % 2 == 0,
{
}

/// The floor of a number is the whole number just at or below it.
pub proof fn law_floors(v: int)
    ensures
        arithmetic::floor_of(v) * pow2(149) <= v < (arithmetic::floor_of(v) + 1) * pow2(149),
{
    let w = pow2(149) as int;
    lemma_pow2_pos(149);
    vstd::arithmetic::div_mod::lemma_fundamental_div_mod(v, w);
    let q = v / w;
    assert(q * w <= v < (q + 1) * w) by (nonlinear_arith)
        requires
            v == w * q + v % w,
            0 <= v % w < w,
    ;
}

/// Past the range of `isize` its nearer end stands in.
pub proof fn law_saturation(x: int)
    ensures
        isize::MIN <= arithmetic::saturated(x) <= isize::MAX,
        isize::MIN <= x <= isize::MAX ==> arithmetic::saturated(x) == x,
        x > isize::MAX ==> arithmetic::saturated(x) == isize::MAX,
        x < isize::MIN ==> arithmetic::saturated(x) == isize::MIN,
{
}

} // verus!
