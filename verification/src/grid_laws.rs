//! Which lines of the grid a segment is held against, and where it is cut.
use crate::arithmetic;
use crate::geometry::{Point, Segment};
use crate::grid_lines;
use crate::grid_lines::{Axis, Bounds};
use crate::hits;
use crate::hits::{Hit, RawHit};
use crate::number_laws;
use crate::ordered;
use crate::ordered::{Rank, Ranked};
use crate::outline;
use crate::outline::Traced;
use crate::outline_laws;
use crate::rounding;
use crate::scalar::Scalar;
use crate::trace;
use core::cmp::Ordering;
use vstd::arithmetic::power2::*;
use vstd::prelude::*;
use vstd::std_specs::cmp::{PartialEqSpec, PartialOrdSpec};

verus! {

/// The line at `n` runs through the bounds: a horizontal one at a height
/// between the lowest and the highest, a vertical one likewise from side to
/// side.
pub open spec fn runs_through(n: int, bounds: Bounds, axis: Axis) -> bool {
    match axis {
        Axis::Horizontal => {
            &&& !bounds.min_y.is_nan() && !bounds.max_y.is_nan()
            &&& bounds.min_y.value() <= n * pow2(149) <= bounds.max_y.value()
        },
        Axis::Vertical => {
            &&& !bounds.min_x.is_nan() && !bounds.max_x.is_nan()
            &&& bounds.min_x.value() <= n * pow2(149) <= bounds.max_x.value()
        },
    }
}

/// The grid lines of a direction are all those that run through the bounds,
/// each once and in rising order.
pub proof fn law_grid_lines(lines: Seq<isize>, bounds: Bounds, axis: Axis)
    requires
        grid_lines::are_grid_lines(lines, bounds, axis),
    ensures
        forall|n: isize| #[trigger]
            lines.contains(n) <==> runs_through(n as int, bounds, axis),
        forall|i: int, j: int| 0 <= i < j < lines.len() ==> lines[i] < lines[j],
{
}

/// `crossing` is the answer that a segment gave for the line at `n`: where it
/// is crossed, and at which point, or that it is not.
pub open spec fn answers<T, P>(
    segment: Segment,
    axis: Axis,
    n: int,
    crossing: Option<RawHit>,
    intersection_t: T,
    sample: P,
) -> bool where
    T: Fn(Segment, Axis, Scalar) -> Option<Scalar>,
    P: Fn(Segment, Scalar) -> Point,
 {
    exists|at: Scalar| #[trigger]
        number_laws::is_nearest(at, n * pow2(149)) && (-0x100_0000 <= n <= 0x100_0000
            ==> at.value() == n * pow2(149)) && match crossing {
            None => call_ensures(intersection_t, (segment, axis, at), None::<Scalar>),
            Some(hit) => {
                &&& call_ensures(intersection_t, (segment, axis, at), Some(hit.t))
                &&& call_ensures(sample, (segment, hit.t), hit.position)
            },
        }
}

proof fn lemma_answers<T, P>(
    segment: Segment,
    axis: Axis,
    n: isize,
    crossing: Option<RawHit>,
    intersection_t: T,
    sample: P,
) where
    T: Fn(Segment, Axis, Scalar) -> Option<Scalar>,
    P: Fn(Segment, Scalar) -> Point,

    requires
        trace::crosses(segment, axis, n, crossing, intersection_t, sample),
    ensures
        answers(segment, axis, n as int, crossing, intersection_t, sample),
{
    let at = choose|at: Scalar| #[trigger]
        arithmetic::is_number(at, n) && match crossing {
            None => call_ensures(intersection_t, (segment, axis, at), None::<Scalar>),
            Some(hit) => {
                &&& call_ensures(intersection_t, (segment, axis, at), Some(hit.t))
                &&& call_ensures(sample, (segment, hit.t), hit.position)
            },
        };
    number_laws::law_whole_numbers(at, n);
    assert(number_laws::is_nearest(at, n * pow2(149)));
}

/// One of the crossings is the answer for the line at `n`.
pub open spec fn is_tried<T, P>(
    traced: Traced,
    axis: Axis,
    n: int,
    intersection_t: T,
    sample: P,
) -> bool where
    T: Fn(Segment, Axis, Scalar) -> Option<Scalar>,
    P: Fn(Segment, Scalar) -> Point,
 {
    exists|i: int|
        0 <= i < traced.crossings@.len() && answers(
            traced.segment,
            axis,
            n,
            #[trigger] traced.crossings@[i],
            intersection_t,
            sample,
        )
}

/// The crossing at index `i` is the answer for a line that runs through the
/// bounds.
pub open spec fn is_answer<T, P>(
    traced: Traced,
    bounds: Bounds,
    i: int,
    intersection_t: T,
    sample: P,
) -> bool where
    T: Fn(Segment, Axis, Scalar) -> Option<Scalar>,
    P: Fn(Segment, Scalar) -> Point,
 {
    exists|n: isize, axis: Axis| #[trigger]
        runs_through(n as int, bounds, axis) && answers(
            traced.segment,
            axis,
            n as int,
            traced.crossings@[i],
            intersection_t,
            sample,
        )
}

/// Every line that runs through the bounds of a segment has been tried, and
/// every crossing is the answer for such a line.
pub open spec fn all_tried<T, P>(
    traced: Traced,
    bounds: Bounds,
    intersection_t: T,
    sample: P,
) -> bool where
    T: Fn(Segment, Axis, Scalar) -> Option<Scalar>,
    P: Fn(Segment, Scalar) -> Point,
 {
    &&& forall|n: isize, axis: Axis| #[trigger]
        runs_through(n as int, bounds, axis) ==> is_tried(
            traced,
            axis,
            n as int,
            intersection_t,
            sample,
        )
    &&& forall|i: int|
        0 <= i < traced.crossings@.len() ==> #[trigger] is_answer(
            traced,
            bounds,
            i,
            intersection_t,
            sample,
        )
}

/// A segment is traced by trying every grid line that runs through its bounds,
/// and no others.
pub proof fn law_every_line_is_tried<B, T, P>(
    traced: Traced,
    bounding_rect: B,
    intersection_t: T,
    sample: P,
) where
    B: Fn(Segment) -> Bounds,
    T: Fn(Segment, Axis, Scalar) -> Option<Scalar>,
    P: Fn(Segment, Scalar) -> Point,

    requires
        trace::is_traced(traced, bounding_rect, intersection_t, sample),
    ensures
        exists|bounds: Bounds|
            call_ensures(bounding_rect, (traced.segment,), bounds) && #[trigger] all_tried(
                traced,
                bounds,
                intersection_t,
                sample,
            ),
{
    let s = traced.segment;
    let c = traced.crossings@;
    let (bounds, h, v) = choose|bounds: Bounds, h: Seq<isize>, v: Seq<isize>|
        {
            &&& call_ensures(bounding_rect, (traced.segment,), bounds)
            &&& #[trigger] grid_lines::are_grid_lines(h, bounds, Axis::Horizontal)
            &&& #[trigger] grid_lines::are_grid_lines(v, bounds, Axis::Vertical)
            &&& traced.crossings@.len() == h.len() + v.len()
            &&& forall|i: int|
                0 <= i < h.len() ==> trace::crosses(
                    traced.segment,
                    Axis::Horizontal,
                    #[trigger] h[i],
                    traced.crossings@[i],
                    intersection_t,
                    sample,
                )
            &&& forall|i: int|
                0 <= i < v.len() ==> trace::crosses(
                    traced.segment,
                    Axis::Vertical,
                    #[trigger] v[i],
                    traced.crossings@[h.len() + i],
                    intersection_t,
                    sample,
                )
        };
    assert forall|n: isize, axis: Axis| #[trigger] runs_through(n as int, bounds, axis) implies
        is_tried(traced, axis, n as int, intersection_t, sample) by {
        match axis {
            Axis::Horizontal => {
                law_grid_lines(h, bounds, axis);
                assert(h.contains(n));
                let j = choose|j: int| 0 <= j < h.len() && h[j] == n;
                assert(trace::crosses(s, axis, h[j], c[j], intersection_t, sample));
                lemma_answers(s, axis, n, c[j], intersection_t, sample);
            },
            Axis::Vertical => {
                law_grid_lines(v, bounds, axis);
                assert(v.contains(n));
                let j = choose|j: int| 0 <= j < v.len() && v[j] == n;
                assert(trace::crosses(s, axis, v[j], c[h.len() + j], intersection_t, sample));
                lemma_answers(s, axis, n, c[h.len() + j], intersection_t, sample);
            },
        }
    }
    assert forall|i: int| 0 <= i < c.len() implies #[trigger] is_answer(
        traced,
        bounds,
        i,
        intersection_t,
        sample,
    ) by {
        if i < h.len() {
            law_grid_lines(h, bounds, Axis::Horizontal);
            assert(trace::crosses(s, Axis::Horizontal, h[i], c[i], intersection_t, sample));
            lemma_answers(s, Axis::Horizontal, h[i], c[i], intersection_t, sample);
            assert(h.contains(h[i]));
            assert(runs_through(h[i] as int, bounds, Axis::Horizontal));
        } else {
            let j = i - h.len();
            law_grid_lines(v, bounds, Axis::Vertical);
            assert(trace::crosses(s, Axis::Vertical, v[j], c[h.len() + j], intersection_t, sample));
            lemma_answers(s, Axis::Vertical, v[j], c[i], intersection_t, sample);
            assert(v.contains(v[j]));
            assert(runs_through(v[j] as int, bounds, Axis::Vertical));
        }
    }
    assert(all_tried(traced, bounds, intersection_t, sample));
}

/// `lines` are what the crossings answer for: the first `m` horizontal lines,
/// the others vertical ones, both from low to high.
pub open spec fn are_lines_of<T, P>(
    traced: Traced,
    lines: Seq<isize>,
    m: int,
    intersection_t: T,
    sample: P,
) -> bool where
    T: Fn(Segment, Axis, Scalar) -> Option<Scalar>,
    P: Fn(Segment, Scalar) -> Point,
 {
    &&& lines.len() == traced.crossings@.len()
    &&& 0 <= m <= lines.len()
    &&& forall|i: int|
        0 <= i < lines.len() ==> answers(
            traced.segment,
            if i < m {
                Axis::Horizontal
            } else {
                Axis::Vertical
            },
            #[trigger] lines[i] as int,
            traced.crossings@[i],
            intersection_t,
            sample,
        )
    &&& forall|i: int, j: int| 0 <= i < j < m ==> lines[i] < lines[j]
    &&& forall|i: int, j: int| m <= i < j < lines.len() ==> lines[i] < lines[j]
}

/// The horizontal lines are tried first, from low to high, and then the
/// vertical ones.
pub proof fn law_horizontal_lines_come_first<B, T, P>(
    traced: Traced,
    bounding_rect: B,
    intersection_t: T,
    sample: P,
) where
    B: Fn(Segment) -> Bounds,
    T: Fn(Segment, Axis, Scalar) -> Option<Scalar>,
    P: Fn(Segment, Scalar) -> Point,

    requires
        trace::is_traced(traced, bounding_rect, intersection_t, sample),
    ensures
        exists|lines: Seq<isize>, m: int| #[trigger]
            are_lines_of(traced, lines, m, intersection_t, sample),
{
    let s = traced.segment;
    let c = traced.crossings@;
    let (bounds, h, v) = choose|bounds: Bounds, h: Seq<isize>, v: Seq<isize>|
        {
            &&& call_ensures(bounding_rect, (traced.segment,), bounds)
            &&& #[trigger] grid_lines::are_grid_lines(h, bounds, Axis::Horizontal)
            &&& #[trigger] grid_lines::are_grid_lines(v, bounds, Axis::Vertical)
            &&& traced.crossings@.len() == h.len() + v.len()
            &&& forall|i: int|
                0 <= i < h.len() ==> trace::crosses(
                    traced.segment,
                    Axis::Horizontal,
                    #[trigger] h[i],
                    traced.crossings@[i],
                    intersection_t,
                    sample,
                )
            &&& forall|i: int|
                0 <= i < v.len() ==> trace::crosses(
                    traced.segment,
                    Axis::Vertical,
                    #[trigger] v[i],
                    traced.crossings@[h.len() + i],
                    intersection_t,
                    sample,
                )
        };
    let lines = h + v;
    let m = h.len() as int;
    law_grid_lines(h, bounds, Axis::Horizontal);
    law_grid_lines(v, bounds, Axis::Vertical);
    assert forall|i: int| 0 <= i < lines.len() implies answers(
        s,
        if i < m {
            Axis::Horizontal
        } else {
            Axis::Vertical
        },
        #[trigger] lines[i] as int,
        c[i],
        intersection_t,
        sample,
    ) by {
        if i < m {
            assert(trace::crosses(s, Axis::Horizontal, h[i], c[i], intersection_t, sample));
            lemma_answers(s, Axis::Horizontal, h[i], c[i], intersection_t, sample);
        } else {
            let j = i - m;
            assert(trace::crosses(s, Axis::Vertical, v[j], c[h.len() + j], intersection_t, sample));
            lemma_answers(s, Axis::Vertical, v[j], c[i], intersection_t, sample);
        }
    }
    assert(are_lines_of(traced, lines, m, intersection_t, sample));
}

/// A segment stays in exactly where its ends lie at different heights, or one
/// of them at none; what stands around it stays as it is.
pub proof fn law_sloped_segments_stay(a: Seq<Segment>, s: Segment, b: Seq<Segment>)
    ensures
        trace::sloped(a + seq![s] + b) == trace::sloped(a) + (if !s.from.y.is_nan()
            && !s.to.y.is_nan() && s.from.y.value() == s.to.y.value() {
            Seq::empty()
        } else {
            seq![s]
        }) + trace::sloped(b),
        trace::sloped(Seq::empty()) == Seq::<Segment>::empty(),
{
    reveal(Seq::filter);
    let f = |s: Segment| !s.level();
    let one = seq![s];
    assert(one.drop_last() =~= Seq::empty());
    assert(trace::sloped(Seq::empty()) =~= Seq::empty());
    assert(trace::sloped(one) =~= if s.level() {
        Seq::empty()
    } else {
        one
    });
    Seq::filter_distributes_over_add(a, one, f);
    Seq::filter_distributes_over_add(a + one, b, f);
}

/// Each segment that stays in is traced, in its place, and no other one is.
pub proof fn law_every_sloped_segment_is_traced<B, T, P>(
    segments: Seq<Segment>,
    traced: Seq<Traced>,
    bounding_rect: B,
    intersection_t: T,
    sample: P,
) where
    B: Fn(Segment) -> Bounds,
    T: Fn(Segment, Axis, Scalar) -> Option<Scalar>,
    P: Fn(Segment, Scalar) -> Point,

    requires
        trace::are_traced(segments, traced, bounding_rect, intersection_t, sample),
    ensures
        traced.len() == trace::sloped(segments).len(),
        forall|i: int|
            0 <= i < traced.len() ==> (#[trigger] traced[i]).segment == trace::sloped(segments)[i]
                && trace::is_traced(traced[i], bounding_rect, intersection_t, sample),
{
    let f = |t: Traced| t.segment;
    assert forall|i: int| 0 <= i < traced.len() implies (#[trigger] traced[i]).segment
        == trace::sloped(segments)[i] && trace::is_traced(
        traced[i],
        bounding_rect,
        intersection_t,
        sample,
    ) by {
        assert(traced.map_values(f)[i] == traced[i].segment);
    }
}

/// Points are equal where their numbers are.
pub proof fn law_equal_points(p: Point, q: Point)
    ensures
        p.eq_spec(&q) <==> {
            &&& !p.x.is_nan() && !q.x.is_nan() && p.x.value() == q.x.value()
            &&& !p.y.is_nan() && !q.y.is_nan() && p.y.value() == q.y.value()
        },
{
}

/// Segments are equal where their ends are.
pub proof fn law_equal_segments(s: Segment, r: Segment)
    ensures
        s.eq_spec(&r) <==> s.from.eq_spec(&r.from) && s.to.eq_spec(&r.to),
{
}

/// Cuts are equal where their points and their parameters are.
pub proof fn law_equal_cuts(a: RawHit, b: RawHit)
    ensures
        a.eq_spec(&b) <==> a.position.eq_spec(&b.position) && !a.t.is_nan() && !b.t.is_nan()
            && a.t.value() == b.t.value(),
{
}

/// Hits are compared by row and then by column, and are equal where both are.
pub proof fn law_comparison_of_hits(p: Hit, q: Hit)
    ensures
        hits::as_ordering(p.ranked(q)) == if p.y < q.y || p.y == q.y && p.x < q.x {
            Ordering::Less
        } else if p.y == q.y && p.x == q.x {
            Ordering::Equal
        } else {
            Ordering::Greater
        },
        hits::as_ordering(p.ranked(q)) == Ordering::Equal <==> p.eq_spec(&q),
        p.partial_cmp_spec(&q) == Some(hits::as_ordering(p.ranked(q))),
{
}

/// The place of a bit pattern in the order of all of them: from the largest
/// negative pattern up to zero and on to the largest positive one.
pub open spec fn bit_order(s: Scalar) -> int {
    if s.bits < 0x8000_0000 {
        s.bits as int
    } else {
        0x7fff_ffff - s.bits
    }
}

/// Cuts are compared by their parameters. Those that differ by 2^-23 at most,
/// or by so little more that it is lost in the difference, are equal; of others
/// the smaller parameter comes first.
pub proof fn law_comparison_of_cuts(a: RawHit, b: RawHit)
    requires
        a.t.is_finite(),
        b.t.is_finite(),
    ensures
        ({
            let limit = pow2(126) + pow2(102);
            hits::as_ordering(a.ranked(b)) == if a.t.value() + limit < b.t.value() {
                Ordering::Less
            } else if b.t.value() + limit < a.t.value() {
                Ordering::Greater
            } else {
                Ordering::Equal
            }
        }),
{
    let d = hits::distance(a.t, b.t);
    let limit = pow2(126) + pow2(102);
    lemma_rounded_limit(d);
    a.t.lemma_order_rank(b.t);
    lemma_pow2_pos(126);
    lemma_pow2_pos(102);
    if d > limit {
        assert(!hits::near(a.t, b.t));
    }
}

/// A size rounds to at most 2^126 up to half a unit past it.
proof fn lemma_rounded_limit(d: nat)
    ensures
        rounding::round_size(d) <= pow2(126) <==> d <= pow2(126) + pow2(102),
{
    let (m, u, h) = (pow2(126), pow2(103), pow2(102));
    lemma2_to64();
    lemma_pow2_pos(102);
    lemma_pow2_unfold(103);
    lemma_pow2_adds(23, 103);
    lemma_rounded_powers();
    assert(0x80_0000 * u == m);
    assert(h >= 2) by {
        lemma_pow2_unfold(102);
        lemma_pow2_pos(101);
    }
    rounding::lemma_round_split(m + h, 0x80_0000, h, 103);
    rounding::lemma_round_split(m + h + 1, 0x80_0000, h + 1, 103);
    lemma_pow2_unfold(127);
    lemma_pow2_strictly_increases(127, 277);
    assert((0x80_0000 + 1) * u == m + u) by (nonlinear_arith)
        requires
            0x80_0000 * u == m,
    ;
    if d <= m + h {
        rounding::lemma_round_monotone(d, m + h);
    } else {
        rounding::lemma_round_monotone(m + h + 1, d);
    }
}

/// The order of cuts is total.
pub proof fn law_cuts_always_compare(a: RawHit, b: RawHit)
    ensures
        a.partial_cmp_spec(&b) == Some(hits::as_ordering(a.ranked(b))),
{
}

/// Where one of the parameters is no finite number, the order of the bit
/// patterns decides.
pub proof fn law_comparison_of_odd_cuts(a: RawHit, b: RawHit)
    requires
        !a.t.is_finite() || !b.t.is_finite(),
    ensures
        hits::as_ordering(a.ranked(b)) == if bit_order(a.t) < bit_order(b.t) {
            Ordering::Less
        } else if bit_order(a.t) == bit_order(b.t) {
            Ordering::Equal
        } else {
            Ordering::Greater
        },
{
}

proof fn lemma_rounded_powers()
    ensures
        rounding::round_size(pow2(126)) == pow2(126),
        rounding::round_size(pow2(127)) == pow2(127),
        0 < pow2(126) < pow2(127),
{
    lemma2_to64();
    lemma_pow2_pos(126);
    lemma_pow2_unfold(127);
    rounding::lemma_round_exact(1, 126);
    rounding::lemma_round_exact(1, 127);
    assert(1 * pow2(126) == pow2(126) && 1 * pow2(127) == pow2(127));
}

/// The point is an end of the segment, with parameter zero or one.
pub open spec fn is_end_cut(segment: Segment, cut: RawHit) -> bool {
    ||| cut.position == segment.from && cut.t == (Scalar { bits: 0 })
    ||| cut.position == segment.to && cut.t == (Scalar { bits: 0x3f80_0000 })
}

/// The point is one of the crossings.
pub open spec fn is_crossing(crossings: Seq<Option<RawHit>>, cut: RawHit) -> bool {
    exists|i: int| 0 <= i < crossings.len() && #[trigger] crossings[i] == Some(cut)
}

proof fn lemma_met(crossings: Seq<Option<RawHit>>, cut: RawHit)
    ensures
        outline::met(crossings).contains(cut) <==> is_crossing(crossings, cut),
    decreases crossings.len(),
{
    if crossings.len() > 0 {
        let fewer = crossings.drop_last();
        let n = crossings.len() - 1;
        let (a, b) = (outline::met(fewer), outline::met(crossings));
        lemma_met(fewer, cut);
        if is_crossing(fewer, cut) {
            let i = choose|i: int| 0 <= i < fewer.len() && #[trigger] fewer[i] == Some(cut);
            assert(crossings[i] == Some(cut));
        }
        if is_crossing(crossings, cut) {
            let i = choose|i: int| 0 <= i < crossings.len() && #[trigger] crossings[i] == Some(cut);
            if i < n {
                assert(fewer[i] == Some(cut));
            }
        }
        if let Some(hit) = crossings[n] {
            assert(b == a.push(hit));
            if b.contains(cut) {
                let i = choose|i: int| 0 <= i < b.len() && b[i] == cut;
                if i < a.len() {
                    assert(a[i] == cut);
                } else {
                    assert(crossings[n] == Some(cut));
                }
            }
            if a.contains(cut) {
                let i = choose|i: int| 0 <= i < a.len() && a[i] == cut;
                assert(b[i] == cut);
            }
            assert(b[a.len() as int] == hit);
        }
    }
}

/// A segment is cut at its ends and at its crossings, and nowhere else.
pub proof fn law_cuts_are_ends_or_crossings(
    segment: Segment,
    crossings: Seq<Option<RawHit>>,
    i: int,
)
    requires
        0 <= i < outline::cuts(segment, crossings).len(),
    ensures
        ({
            let cut = outline::cuts(segment, crossings)[i];
            is_end_cut(segment, cut) || is_crossing(crossings, cut)
        }),
{
    let news = outline::ends(segment) + outline::met(crossings);
    let none = Seq::<RawHit>::empty();
    let cut = outline::cuts(segment, crossings)[i];
    ordered::lemma_all_inserted(none, news);
    assert(none.contains(cut) || news.contains(cut));
    let j = choose|j: int| 0 <= j < news.len() && news[j] == cut;
    if j >= 2 {
        assert(outline::met(crossings)[j - 2] == cut);
        lemma_met(crossings, cut);
    }
}

/// Some cut has a parameter that differs from `t` by at most 2^-22.
pub open spec fn is_cut_near(cuts: Seq<RawHit>, t: Scalar) -> bool {
    exists|i: int|
        0 <= i < cuts.len() && (#[trigger] cuts[i]).t.is_finite() && number_laws::apart_by(
            cuts[i].t.value(),
            t.value(),
        ) <= pow2(127)
}

proof fn lemma_point_has_cut(segment: Segment, crossings: Seq<Option<RawHit>>, point: RawHit)
    requires
        is_end_cut(segment, point) || is_crossing(crossings, point),
    ensures
        ordered::has_same(outline::cuts(segment, crossings), point),
{
    let ends = outline::ends(segment);
    let met = outline::met(crossings);
    let news = ends + met;
    assert(news.contains(point)) by {
        if is_end_cut(segment, point) {
            if point.t.bits == 0 {
                assert(news[0] == point);
            } else {
                assert(news[1] == point);
            }
        } else {
            lemma_met(crossings, point);
            let j = choose|j: int| 0 <= j < met.len() && met[j] == point;
            assert(news[2 + j] == point);
        }
    }
    let k = choose|k: int| 0 <= k < news.len() && news[k] == point;
    ordered::lemma_all_inserted(Seq::empty(), news);
    assert(ordered::has_same(ordered::all_inserted(Seq::empty(), news), news[k]));
}

/// Each end and each crossing of a segment is cut at, or something within 2^-22
/// of it along the segment is.
pub proof fn law_every_crossing_is_cut(
    segment: Segment,
    crossings: Seq<Option<RawHit>>,
    point: RawHit,
)
    requires
        is_end_cut(segment, point) || is_crossing(crossings, point),
        point.t.is_finite(),
    ensures
        is_cut_near(outline::cuts(segment, crossings), point.t),
{
    let cuts = outline::cuts(segment, crossings);
    lemma_point_has_cut(segment, crossings, point);
    let i = choose|i: int| 0 <= i < cuts.len() && point.ranked(#[trigger] cuts[i]) == Rank::Same;
    lemma_same_is_near(point, cuts[i]);
    assert(cuts[i].t.is_finite());
}

proof fn lemma_same_is_near(a: RawHit, b: RawHit)
    requires
        a.t.is_finite(),
        a.ranked(b) == Rank::Same,
    ensures
        b.t.is_finite(),
        number_laws::apart_by(b.t.value(), a.t.value()) <= pow2(127),
{
    let d = hits::distance(a.t, b.t);
    lemma_rounded_powers();
    if hits::near(a.t, b.t) {
        if d > pow2(127) {
            rounding::lemma_round_monotone(pow2(127), d);
        }
    } else {
        assert(a.t.magnitude() == b.t.magnitude());
    }
}

/// The parameters lie so near that they count as one.
pub open spec fn counts_as_one(t: Scalar, u: Scalar) -> bool {
    number_laws::apart_by(t.value(), u.value()) <= pow2(126) + pow2(102)
}

/// A crossing is cut at unless an end, or a crossing before it, lies so near
/// that both count as one.
pub proof fn law_first_crossing_stays(segment: Segment, crossings: Seq<Option<RawHit>>, i: int)
    requires
        0 <= i < crossings.len(),
        crossings[i] is Some,
        crossings[i]->0.t.is_finite(),
        forall|p: RawHit|
            is_end_cut(segment, p) || is_crossing(crossings.take(i), p)
                ==> #[trigger] p.t.is_finite() && !counts_as_one(p.t, crossings[i]->0.t),
    ensures
        outline::cuts(segment, crossings).contains(crossings[i]->0),
{
    let hit = crossings[i]->0;
    let (before, upto) = (crossings.take(i), crossings.take(i + 1));
    let few = outline::cuts(segment, before);
    assert(upto.drop_last() =~= before);
    outline_laws::lemma_one_more_crossing(segment, upto);
    let e = outline::ends(segment);
    ordered::lemma_all_inserted(Seq::empty(), e + outline::met(before));
    assert(!ordered::has_same(few, hit)) by {
        if ordered::has_same(few, hit) {
            let k = choose|k: int|
                0 <= k < few.len() && hit.ranked(#[trigger] few[k]) == Rank::Same;
            law_cuts_are_ends_or_crossings(segment, before, k);
            assert(few[k].t.is_finite());
            law_comparison_of_cuts(hit, few[k]);
        }
    }
    ordered::lemma_inserted_holds(few, hit, hit);
    lemma_cuts_stay(segment, crossings, i + 1, hit);
}

proof fn lemma_cuts_stay(segment: Segment, crossings: Seq<Option<RawHit>>, n: int, hit: RawHit)
    requires
        0 <= n <= crossings.len(),
        outline::cuts(segment, crossings.take(n)).contains(hit),
    ensures
        outline::cuts(segment, crossings).contains(hit),
    decreases crossings.len(),
{
    if n == crossings.len() {
        assert(crossings.take(n) =~= crossings);
    } else {
        let fewer = crossings.drop_last();
        assert(fewer.take(n) =~= crossings.take(n));
        lemma_cuts_stay(segment, fewer, n, hit);
        outline_laws::lemma_one_more_crossing(segment, crossings);
        let e = outline::ends(segment);
        ordered::lemma_all_inserted(Seq::empty(), e + outline::met(fewer));
        if let Some(last) = crossings.last() {
            ordered::lemma_kept(outline::cuts(segment, fewer), last);
        }
    }
}

/// Cuts come in the order of their parameters, more than 2^-23 apart.
pub proof fn law_cuts_are_apart(segment: Segment, crossings: Seq<Option<RawHit>>, i: int, j: int)
    requires
        0 <= i < j < outline::cuts(segment, crossings).len(),
        outline::cuts(segment, crossings)[i].t.is_finite(),
        outline::cuts(segment, crossings)[j].t.is_finite(),
    ensures
        ({
            let cuts = outline::cuts(segment, crossings);
            cuts[i].t.value() + pow2(126) < cuts[j].t.value()
        }),
{
    let cuts = outline::cuts(segment, crossings);
    let news = outline::ends(segment) + outline::met(crossings);
    ordered::lemma_all_inserted(Seq::empty(), news);
    assert(cuts[i].ranked(cuts[j]) == Rank::Before);
    let d = hits::distance(cuts[i].t, cuts[j].t);
    lemma_rounded_powers();
    if d <= pow2(126) {
        rounding::lemma_round_monotone(d, pow2(126));
    }
    cuts[i].t.lemma_order_rank(cuts[j].t);
}

} // verus!
