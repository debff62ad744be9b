//! The lines of the pixel grid that a segment may cross.
use crate::arithmetic;
use crate::scalar::Scalar;
use vstd::arithmetic::power2::*;
use vstd::prelude::*;

verus! {

/// The direction of a grid line.
#[derive(Clone, Copy, Debug, PartialEq, Eq, Structural)]
pub enum Axis {
    Horizontal,
    Vertical,
}

/// The smallest rectangle around a segment.
#[derive(Clone, Copy, Debug)]
pub struct Bounds {
    pub min_x: Scalar,
    pub max_x: Scalar,
    pub min_y: Scalar,
    pub max_y: Scalar,
}

impl Bounds {
    /// Where the coordinate begins that the lines of a direction are told by.
    pub open spec fn low(self, axis: Axis) -> Scalar {
        match axis {
            Axis::Horizontal => self.min_y,
            Axis::Vertical => self.min_x,
        }
    }

    /// Where that coordinate ends.
    pub open spec fn high(self, axis: Axis) -> Scalar {
        match axis {
            Axis::Horizontal => self.max_y,
            Axis::Vertical => self.max_x,
        }
    }
}

/// The line at `n` meets the bounds.
pub open spec fn meets(n: int, bounds: Bounds, axis: Axis) -> bool {
    &&& !bounds.low(axis).is_nan() && !bounds.high(axis).is_nan()
    &&& bounds.low(axis).value() <= n * pow2(149) <= bounds.high(axis).value()
}

/// `lines` are the lines that meet the bounds, in increasing order.
pub open spec fn are_grid_lines(lines: Seq<isize>, bounds: Bounds, axis: Axis) -> bool {
    &&& forall|i: int, j: int| 0 <= i < j < lines.len() ==> lines[i] < lines[j]
    &&& forall|n: isize| #[trigger] lines.contains(n) <==> meets(n as int, bounds, axis)
}

/// A whole number is not above `v` steps exactly where it is not above the
/// floor of it.
pub proof fn lemma_floor(v: int, n: int)
    ensures
        n * pow2(149) <= v <==> n <= arithmetic::floor_of(v),
{
    let w = pow2(149) as int;
    lemma_pow2_pos(149);
    vstd::arithmetic::div_mod::lemma_fundamental_div_mod(v, w);
    let q = v / w;
    if n <= q {
        assert(n * w <= w * q) by (nonlinear_arith)
            requires
                n <= q,
                w > 0,
        ;
    } else {
        assert(n * w >= w * q + w) by (nonlinear_arith)
            requires
                n >= q + 1,
                w > 0,
        ;
    }
}

/// The lines of one direction that meet the bounds.
pub fn grid_lines(bounds: Bounds, axis: Axis) -> (lines: Vec<isize>)
    ensures
        are_grid_lines(lines@, bounds, axis),
{
    let (low, high): (Scalar, Scalar) = match axis {
        Axis::Horizontal => (bounds.min_y, bounds.max_y),
        Axis::Vertical => (bounds.min_x, bounds.max_x),
    };
    let mut lines: Vec<isize> = Vec::new();
    if low.not_a_number() || high.not_a_number() {
        return lines;
    }
    let least: i128 = -low.negated().wide_floor();
    let most: i128 = high.wide_floor();
    let first: i128 = if least < isize::MIN as i128 {
        isize::MIN as i128
    } else {
        least
    };
    let last: i128 = if most > isize::MAX as i128 {
        isize::MAX as i128
    } else {
        most
    };
    let mut n: i128 = first;
    while n <= last
        invariant
            isize::MIN <= first <= n,
            last <= isize::MAX,
            n <= last + 1 || n == first,
            lines@.len() == n - first,
            forall|i: int| 0 <= i < lines@.len() ==> #[trigger] lines@[i] == first + i,
        decreases last + 1 - n,
    {
        lines.push(n as isize);
        n = n + 1;
    }
    proof {
        assert forall|m: isize| #[trigger] lines@.contains(m) <==> meets(m as int, bounds, axis) by {
            lemma_floor(high.value(), m as int);
            lemma_floor(-low.value(), -(m as int));
            let w = pow2(149) as int;
            assert((-(m as int)) * w == -(m * w)) by (nonlinear_arith);
            assert(meets(m as int, bounds, axis) <==> first <= m <= last);
            if first <= m <= last {
                assert(lines@[m - first] == m);
            }
        }
    }
    lines
}

} // verus!
