//! Which pixel a piece of a segment belongs to, and which point coverage is
//! asked for.
use crate::arithmetic;
use crate::geometry::Point;
use crate::hits::{Hit, RawHit};
use crate::number_laws;
use crate::outline;
use crate::region_list;
use crate::region_list::ShadeCommand;
use crate::regions;
use crate::rounding;
use crate::scalar;
use crate::scalar::Scalar;
use vstd::arithmetic::power2::*;
use vstd::prelude::*;

verus! {

/// Half of `sum` steps lies in the pixel `cell` of its direction.
pub open spec fn holds_half(cell: int, sum: int) -> bool {
    2 * cell * pow2(149) <= sum < 2 * (cell + 1) * pow2(149)
}

/// Half of `sum` steps lies in a pixel that `isize` has a number for.
pub open spec fn in_range(sum: int) -> bool {
    2 * isize::MIN * pow2(149) <= sum < 2 * (isize::MAX + 1) * pow2(149)
}

/// A rounded size that is odd is smaller than 2^24.
proof fn lemma_odd_is_small(x: nat)
    requires
        rounding::round_size(x) % 2 == 1,
    ensures
        rounding::round_size(x) < 0x100_0000,
{
    let j = rounding::lemma_ulp_exponent(x);
    let unit = pow2(j);
    let (q, rest) = (x / unit, x % unit);
    lemma2_to64();
    if j == 0 {
        assert(q == x && rest == 0) by (nonlinear_arith)
            requires
                unit == 1,
                q == x / unit,
                rest == x % unit,
        ;
    } else {
        lemma_pow2_unfold(j);
        let h = pow2((j - 1) as nat);
        assert(q * unit == 2 * (q * h)) by (nonlinear_arith)
            requires
                unit == 2 * h,
        ;
        assert((q + 1) * unit == 2 * ((q + 1) * h)) by (nonlinear_arith)
            requires
                unit == 2 * h,
        ;
        lemma_pow2_unfold(277);
    }
}

/// Where the half of a rounded sum falls: in the pixel that holds it. The half
/// of minus one step is no number, and counts as zero.
proof fn lemma_half_cell(v: int)
    ensures
        ({
            let sum = rounding::round(v);
            let cell = arithmetic::floor_of(arithmetic::half(sum));
            &&& sum != -1 ==> holds_half(cell, sum)
            &&& sum == -1 ==> cell == 0
        }),
{
    let sum = rounding::round(v);
    let w = pow2(149) as int;
    let h = arithmetic::half(sum);
    let q = arithmetic::floor_of(h);
    number_laws::law_floors(h);
    number_laws::law_halves(sum);
    lemma2_to64();
    lemma_pow2_strictly_increases(24, 149);
    assert(2 * q * w == 2 * (q * w) && 2 * (q + 1) * w == 2 * ((q + 1) * w)) by (nonlinear_arith);
    if sum % 2 != 0 {
        let size = (if v < 0 {
            -v
        } else {
            v
        }) as nat;
        lemma_odd_is_small(size);
        assert(-0x100_0000 < sum < 0x100_0000);
        if h < 0 {
            assert(q == -1) by (nonlinear_arith)
                requires
                    q * w <= h < (q + 1) * w,
                    -w < h < 0,
                    w > 0,
            ;
            assert(-1 * w == -w && 0 * w == 0);
        } else {
            assert(q == 0) by (nonlinear_arith)
                requires
                    q * w <= h < (q + 1) * w,
                    0 <= h < w,
                    w > 0,
            ;
            assert(1 * w == w && 0 * w == 0);
        }
    }
}

/// A half that a pixel of the range holds is in the range, and the other way
/// round.
proof fn lemma_range(cell: int, sum: int)
    requires
        holds_half(cell, sum),
    ensures
        in_range(sum) <==> isize::MIN <= cell <= isize::MAX,
        cell > isize::MAX <==> sum >= 2 * (isize::MAX + 1) * pow2(149),
{
    let w = pow2(149) as int;
    lemma_pow2_pos(149);
    let (low, high) = (isize::MIN as int, isize::MAX as int);
    assert(cell >= low ==> 2 * low * w <= sum) by (nonlinear_arith)
        requires
            2 * cell * w <= sum,
            w > 0,
    ;
    assert(cell < low ==> sum < 2 * low * w) by (nonlinear_arith)
        requires
            sum < 2 * (cell + 1) * w,
            w > 0,
    ;
    assert(cell <= high ==> sum < 2 * (high + 1) * w) by (nonlinear_arith)
        requires
            sum < 2 * (cell + 1) * w,
            w > 0,
    ;
    assert(cell > high ==> 2 * (high + 1) * w <= sum) by (nonlinear_arith)
        requires
            2 * cell * w <= sum,
            w > 0,
    ;
}

/// The pixel of a direction holds the middle of two coordinates.
pub open spec fn is_middle_pixel(cell: int, a: Scalar, b: Scalar) -> bool {
    let sum = rounding::round(a.value() + b.value());
    &&& in_range(sum) && sum != -1 ==> holds_half(cell, sum)
    &&& sum == -1 ==> cell == 0
    &&& sum >= 2 * (isize::MAX + 1) * pow2(149) ==> cell == isize::MAX
    &&& sum < 2 * isize::MIN * pow2(149) ==> cell == isize::MIN
}

proof fn lemma_middle(a: Scalar, b: Scalar)
    requires
        a.is_finite(),
        b.is_finite(),
    ensures
        is_middle_pixel(outline::middle_cell(a, b), a, b),
        isize::MIN <= outline::middle_cell(a, b) <= isize::MAX,
{
    let v = a.value() + b.value();
    let sum = rounding::round(v);
    let cell = arithmetic::floor_of(arithmetic::half(sum));
    lemma_half_cell(v);
    number_laws::law_saturation(cell);
    lemma_pow2_pos(149);
    if sum != -1 {
        lemma_range(cell, sum);
    } else {
        let w = pow2(149) as int;
        assert(2 * (isize::MAX + 1) * w > 0) by (nonlinear_arith)
            requires
                w > 0,
        ;
        assert(2 * isize::MIN * w <= -2 * w) by (nonlinear_arith)
            requires
                w > 0,
        ;
    }
}

/// The pixel of a hit holds the middle of its piece: the rounded sums of the
/// two coordinates lie between twice the one and twice the other side of the
/// pixel. Past the range of `isize` its ends stand in.
pub proof fn law_pixel_holds_the_middle(a: RawHit, b: RawHit, segment_id: usize)
    ensures
        ({
            let hit = outline::hit_between(a, b, segment_id);
            &&& a.position.x.is_finite() && b.position.x.is_finite() ==> is_middle_pixel(
                hit.x as int,
                a.position.x,
                b.position.x,
            )
            &&& a.position.y.is_finite() && b.position.y.is_finite() ==> is_middle_pixel(
                hit.y as int,
                a.position.y,
                b.position.y,
            )
        }),
{
    if a.position.x.is_finite() && b.position.x.is_finite() {
        lemma_middle(a.position.x, b.position.x);
    }
    if a.position.y.is_finite() && b.position.y.is_finite() {
        lemma_middle(a.position.y, b.position.y);
    }
}

/// The sum of the two numbers is a number.
pub open spec fn exact_sum(a: Scalar, b: Scalar) -> bool {
    exists|c: Scalar| #[trigger] c.is_finite() && c.value() == a.value() + b.value()
}

proof fn lemma_exact_sum(a: Scalar, b: Scalar)
    requires
        exact_sum(a, b),
    ensures
        rounding::round(a.value() + b.value()) == a.value() + b.value(),
{
    let c = choose|c: Scalar| #[trigger] c.is_finite() && c.value() == a.value() + b.value();
    scalar::lemma_significand_range(c.magnitude());
    rounding::lemma_round_exact(
        scalar::significand(c.magnitude()),
        scalar::unit_exponent(c.magnitude()),
    );
}

/// Where the sums of the coordinates are exact, the pixel of a hit holds the
/// exact middle of its piece.
pub proof fn law_pixel_holds_the_exact_middle(a: RawHit, b: RawHit, segment_id: usize)
    requires
        a.position.x.is_finite() && b.position.x.is_finite(),
        a.position.y.is_finite() && b.position.y.is_finite(),
        exact_sum(a.position.x, b.position.x),
        exact_sum(a.position.y, b.position.y),
    ensures
        ({
            let hit = outline::hit_between(a, b, segment_id);
            let sum_x = a.position.x.value() + b.position.x.value();
            let sum_y = a.position.y.value() + b.position.y.value();
            &&& in_range(sum_x) && sum_x != -1 ==> 2 * hit.x * pow2(149) <= sum_x < 2 * (hit.x + 1)
                * pow2(149)
            &&& in_range(sum_y) && sum_y != -1 ==> 2 * hit.y * pow2(149) <= sum_y < 2 * (hit.y + 1)
                * pow2(149)
        }),
{
    law_pixel_holds_the_middle(a, b, segment_id);
    lemma_exact_sum(a.position.x, b.position.x);
    lemma_exact_sum(a.position.y, b.position.y);
}

/// The two coordinates lie between the sides of a pixel, not both on its far
/// side, and their sum is a number other than minus one step.
pub open spec fn within_pixel(cell: int, a: Scalar, b: Scalar) -> bool {
    &&& a.is_finite() && b.is_finite()
    &&& exact_sum(a, b)
    &&& a.value() + b.value() != -1
    &&& cell * pow2(149) <= a.value() <= (cell + 1) * pow2(149)
    &&& cell * pow2(149) <= b.value() <= (cell + 1) * pow2(149)
    &&& a.value() + b.value() < 2 * (cell + 1) * pow2(149)
}

proof fn lemma_within_pixel(cell: int, other: int, a: Scalar, b: Scalar)
    requires
        within_pixel(cell, a, b),
        isize::MIN <= cell <= isize::MAX,
        is_middle_pixel(other, a, b),
    ensures
        other == cell,
{
    let (s, w) = (a.value() + b.value(), pow2(149) as int);
    lemma_exact_sum(a, b);
    lemma_pow2_pos(149);
    assert(2 * cell * w == 2 * (cell * w)) by (nonlinear_arith);
    assert(holds_half(cell, s));
    lemma_range(cell, s);
    assert(other == cell) by (nonlinear_arith)
        requires
            2 * cell * w <= s < 2 * (cell + 1) * w,
            2 * other * w <= s < 2 * (other + 1) * w,
            w > 0,
    ;
}

/// A piece that lies in one pixel, sides included but not on its far side, is
/// hit in that pixel, whichever it is.
pub proof fn law_piece_in_a_pixel(a: RawHit, b: RawHit, segment_id: usize, x: isize, y: isize)
    requires
        within_pixel(x as int, a.position.x, b.position.x),
        within_pixel(y as int, a.position.y, b.position.y),
    ensures
        outline::hit_between(a, b, segment_id).x == x,
        outline::hit_between(a, b, segment_id).y == y,
{
    let hit = outline::hit_between(a, b, segment_id);
    law_pixel_holds_the_middle(a, b, segment_id);
    lemma_within_pixel(x as int, hit.x as int, a.position.x, b.position.x);
    lemma_within_pixel(y as int, hit.y as int, a.position.y, b.position.y);
}

/// Coordinates past the numbers: what is not a number, or infinite both ways,
/// counts as zero, and otherwise the infinite ones as the ends of the range.
pub proof fn law_pixel_past_the_numbers(a: RawHit, b: RawHit, segment_id: usize)
    ensures
        ({
            let hit = outline::hit_between(a, b, segment_id);
            let (p, q) = (a.position, b.position);
            &&& p.x.is_nan() || q.x.is_nan() ==> hit.x == 0
            &&& p.y.is_nan() || q.y.is_nan() ==> hit.y == 0
            &&& p.x.is_infinite() && q.x.is_infinite() && p.x != q.x ==> hit.x == 0
            &&& p.y.is_infinite() && q.y.is_infinite() && p.y != q.y ==> hit.y == 0
            &&& p.x.is_infinite() && q.x.is_finite() || p.x.is_finite() && q.x.is_infinite()
                || p.x.is_infinite() && p.x == q.x ==> hit.x == if p.x.is_infinite()
                && p.x.is_negative() || q.x.is_infinite() && q.x.is_negative() {
                isize::MIN
            } else {
                isize::MAX
            }
            &&& p.y.is_infinite() && q.y.is_finite() || p.y.is_finite() && q.y.is_infinite()
                || p.y.is_infinite() && p.y == q.y ==> hit.y == if p.y.is_infinite()
                && p.y.is_negative() || q.y.is_infinite() && q.y.is_negative() {
                isize::MIN
            } else {
                isize::MAX
            }
        }),
{
    lemma_infinite_pixel(a.position.x);
    lemma_infinite_pixel(b.position.x);
    lemma_infinite_pixel(a.position.y);
    lemma_infinite_pixel(b.position.y);
}

proof fn lemma_infinite_pixel(s: Scalar)
    ensures
        s.is_infinite() ==> arithmetic::saturated(arithmetic::floor_of(s.value())) == if s.is_negative() {
            isize::MIN
        } else {
            isize::MAX
        },
{
    s.lemma_size_kinds();
    outline::lemma_infinite_cell(s.value());
}

/// The heights of a hit are those of the two cuts, the lower one first, and it
/// names its segment.
pub proof fn law_heights_of_a_hit(a: RawHit, b: RawHit, segment_id: usize)
    requires
        !a.position.y.is_nan(),
        !b.position.y.is_nan(),
    ensures
        ({
            let hit = outline::hit_between(a, b, segment_id);
            let (p, q) = (a.position.y, b.position.y);
            let (start, end) = (hit.y_range.start, hit.y_range.end);
            &&& start == p && end == q || start == q && end == p
            &&& start.value() <= end.value()
            &&& hit.segment_id == segment_id
            &&& !hit.uncovered
        }),
{
}

/// `p` is the point (x, y): each coordinate is a number nearest to it, and
/// exact up to 2^24 in size.
pub open spec fn is_point(p: Point, x: int, y: int) -> bool {
    &&& number_laws::is_nearest(p.x, x * pow2(149))
    &&& number_laws::is_nearest(p.y, y * pow2(149))
    &&& -0x100_0000 <= x <= 0x100_0000 ==> p.x.value() == x * pow2(149)
    &&& -0x100_0000 <= y <= 0x100_0000 ==> p.y.value() == y * pow2(149)
}

/// The coverage of a boundary pixel is the one at its corner: the point with
/// the column of the pixel as its x and the row as its y.
pub proof fn law_coverage_is_that_of_the_corner(
    hits: Seq<Hit>,
    commands: Seq<ShadeCommand>,
    covered: spec_fn(Point, Scalar) -> bool,
    i: int,
)
    requires
        region_list::shade_hits(commands, hits, covered),
        0 <= i < commands.len(),
        commands[i] is Boundary,
    ensures
        exists|p: Point| #[trigger]
            is_point(p, commands[i]->Boundary_x as int, commands[i]->Boundary_y as int)
                && covered(p, commands[i]->coverage),
{
    let (x, y, c) = (
        commands[i]->Boundary_x,
        commands[i]->Boundary_y,
        commands[i]->coverage,
    );
    let region = regions::regions_of(hits, hits.len() as int)[i];
    assert(region_list::shades(commands[i], region, covered));
    let p = choose|p: Point| #[trigger] region_list::is_corner(p, x, y) && covered(p, c);
    number_laws::law_whole_numbers(p.x, x);
    number_laws::law_whole_numbers(p.y, y);
    assert(is_point(p, x as int, y as int) && covered(p, c));
}

} // verus!
