//! Which rows of pixels lie inside the edges to their left, over their whole
//! height.
use crate::geometry::Segment;
use crate::grid_lines;
use crate::scalar::Scalar;
use vstd::arithmetic::power2::*;
use vstd::prelude::*;

verus! {

/// The segment crosses the height of `v` steps: it reaches from there or below
/// to above.
pub open spec fn crosses_height(segment: Segment, v: int) -> bool {
    let (a, b) = (segment.from.y, segment.to.y);
    &&& !a.is_nan() && !b.is_nan()
    &&& a.value() <= v < b.value() || b.value() <= v < a.value()
}

/// How many of the segments cross the height of `v` steps.
pub open spec fn edges_at(segments: Seq<Segment>, v: int) -> nat
    decreases segments.len(),
{
    if segments.len() == 0 {
        0
    } else {
        edges_at(segments.drop_last(), v) + (if crosses_height(segments.last(), v) {
            1nat
        } else {
            0nat
        })
    }
}

/// The height of `v` steps belongs to row `y`.
pub open spec fn in_row(v: int, y: int) -> bool {
    y * pow2(149) <= v < (y + 1) * pow2(149)
}

/// At every height of row `y`, an odd number of the segments crosses it: what
/// has them to its left, and touches no other edge, is completely covered.
pub open spec fn covered(segments: Seq<Segment>, y: int) -> bool {
    forall|v: int| #[trigger] in_row(v, y) ==> edges_at(segments, v) % 2 == 1
}

/// `v` is the height of an end of the segment.
pub open spec fn is_end(segment: Segment, v: int) -> bool {
    ||| !segment.from.y.is_nan() && segment.from.y.value() == v
    ||| !segment.to.y.is_nan() && segment.to.y.value() == v
}

/// Between ends, the number of edges stays as it is.
proof fn lemma_between_ends(segments: Seq<Segment>, w: int, v: int)
    requires
        w <= v,
        forall|i: int, e: int|
            0 <= i < segments.len() && w < e <= v ==> !(#[trigger] is_end(segments[i], e)),
    ensures
        edges_at(segments, v) == edges_at(segments, w),
    decreases segments.len(),
{
    if segments.len() > 0 {
        let fewer = segments.drop_last();
        let last = segments.last();
        assert forall|i: int, e: int| 0 <= i < fewer.len() && w < e <= v implies !(
        #[trigger] is_end(fewer[i], e)) by {
            assert(!is_end(segments[i], e));
        }
        lemma_between_ends(fewer, w, v);
        let (a, b) = (last.from.y, last.to.y);
        let n = segments.len() - 1;
        assert(w < a.value() <= v ==> !is_end(segments[n], a.value()));
        assert(w < b.value() <= v ==> !is_end(segments[n], b.value()));
    }
}

/// The highest end of a segment up to `v`, or `w` where none lies above it.
spec fn last_end(segments: Seq<Segment>, w: int, v: int) -> int
    decreases segments.len(),
{
    if segments.len() == 0 {
        w
    } else {
        let (a, b) = (segments.last().from.y, segments.last().to.y);
        let e = last_end(segments.drop_last(), w, v);
        let f = if !a.is_nan() && e < a.value() <= v {
            a.value()
        } else {
            e
        };
        if !b.is_nan() && f < b.value() <= v {
            b.value()
        } else {
            f
        }
    }
}

proof fn lemma_last_end(segments: Seq<Segment>, w: int, v: int)
    requires
        w <= v,
    ensures
        ({
            let e = last_end(segments, w, v);
            &&& w <= e <= v
            &&& e == w || exists|i: int|
                0 <= i < segments.len() && #[trigger] is_end(segments[i], e)
            &&& forall|i: int, f: int|
                0 <= i < segments.len() && e < f <= v ==> !(#[trigger] is_end(segments[i], f))
        }),
    decreases segments.len(),
{
    if segments.len() > 0 {
        let fewer = segments.drop_last();
        let n = segments.len() - 1;
        let d = last_end(fewer, w, v);
        let e = last_end(segments, w, v);
        lemma_last_end(fewer, w, v);
        if e == d && e != w {
            let i = choose|i: int| 0 <= i < fewer.len() && #[trigger] is_end(fewer[i], e);
            assert(is_end(segments[i], e));
        } else if e != w {
            assert(is_end(segments[n], e));
        }
        assert forall|i: int, f: int| 0 <= i < segments.len() && e < f <= v implies !(
        #[trigger] is_end(segments[i], f)) by {
            if i < n {
                assert(!is_end(fewer[i], f));
            }
        }
    }
}

/// The bottom of a row and the ends within it decide for the whole row.
proof fn lemma_ends_decide(segments: Seq<Segment>, y: int)
    requires
        edges_at(segments, y * pow2(149)) % 2 == 1,
        forall|i: int, e: int|
            0 <= i < segments.len() && in_row(e, y) && #[trigger] is_end(segments[i], e)
                ==> edges_at(segments, e) % 2 == 1,
    ensures
        covered(segments, y),
{
    assert forall|v: int| #[trigger] in_row(v, y) implies edges_at(segments, v) % 2 == 1 by {
        let w = y * pow2(149);
        let e = last_end(segments, w, v);
        lemma_last_end(segments, w, v);
        lemma_between_ends(segments, e, v);
        if e != w {
            let i = choose|i: int| 0 <= i < segments.len() && #[trigger] is_end(segments[i], e);
            assert(in_row(e, y));
        }
    }
}

fn is_below_line(s: Scalar, y: isize) -> (r: bool)
    requires
        !s.is_nan(),
    ensures
        r == (s.value() <= y * pow2(149)),
{
    let above: i128 = -s.negated().wide_floor();
    proof {
        grid_lines::lemma_floor(-s.value(), -(y as int));
        assert((-(y as int)) * pow2(149) == -(y * pow2(149))) by (nonlinear_arith);
    }
    above <= y as i128
}

fn is_in_row(s: Scalar, y: isize) -> (r: bool)
    ensures
        r == (!s.is_nan() && in_row(s.value(), y as int)),
{
    if s.not_a_number() {
        return false;
    }
    proof {
        grid_lines::lemma_floor(s.value(), y as int);
        grid_lines::lemma_floor(s.value(), y + 1);
    }
    s.wide_floor() == y as i128
}

/// Whether an odd number of the segments crosses the line at `y`.
fn is_odd_at_line(segments: &Vec<Segment>, y: isize) -> (odd: bool)
    ensures
        odd == (edges_at(segments@, y * pow2(149)) % 2 == 1),
{
    let mut odd: bool = false;
    let mut i: usize = 0;
    while i < segments.len()
        invariant
            i <= segments@.len(),
            odd == (edges_at(segments@.take(i as int), y * pow2(149)) % 2 == 1),
        decreases segments@.len() - i,
    {
        proof {
            assert(segments@.take(i + 1).drop_last() =~= segments@.take(i as int));
        }
        let (a, b) = (segments[i].from.y, segments[i].to.y);
        if !a.not_a_number() && !b.not_a_number() && is_below_line(a, y)
            != is_below_line(b, y) {
            odd = !odd;
        }
        i = i + 1;
    }
    proof {
        assert(segments@.take(segments@.len() as int) =~= segments@);
    }
    odd
}

/// Whether an odd number of the segments crosses the height of `s`.
fn is_odd_at(segments: &Vec<Segment>, s: Scalar) -> (odd: bool)
    requires
        !s.is_nan(),
    ensures
        odd == (edges_at(segments@, s.value()) % 2 == 1),
{
    let mut odd: bool = false;
    let mut i: usize = 0;
    while i < segments.len()
        invariant
            i <= segments@.len(),
            !s.is_nan(),
            odd == (edges_at(segments@.take(i as int), s.value()) % 2 == 1),
        decreases segments@.len() - i,
    {
        proof {
            assert(segments@.take(i + 1).drop_last() =~= segments@.take(i as int));
        }
        let (a, b) = (segments[i].from.y, segments[i].to.y);
        if !a.not_a_number() && !b.not_a_number() && a.at_most(s)
            != b.at_most(s) {
            odd = !odd;
        }
        i = i + 1;
    }
    proof {
        assert(segments@.take(segments@.len() as int) =~= segments@);
    }
    odd
}

/// Whether an odd number of the segments crosses row `y` at every height.
pub fn is_covered(segments: &Vec<Segment>, y: isize) -> (r: bool)
    ensures
        r == covered(segments@, y as int),
{
    let ghost bottom = y * pow2(149);
    proof {
        lemma_pow2_pos(149);
        assert((y + 1) * pow2(149) == bottom + pow2(149)) by (nonlinear_arith)
            requires
                bottom == y * pow2(149),
        ;
        assert(in_row(bottom, y as int));
    }
    if !is_odd_at_line(segments, y) {
        return false;
    }
    let mut i: usize = 0;
    while i < segments.len()
        invariant
            i <= segments@.len(),
            forall|j: int, e: int|
                0 <= j < i && in_row(e, y as int) && #[trigger] is_end(segments@[j], e)
                    ==> edges_at(segments@, e) % 2 == 1,
        decreases segments@.len() - i,
    {
        let (a, b) = (segments[i].from.y, segments[i].to.y);
        if is_in_row(a, y) && !is_odd_at(segments, a) {
            return false;
        }
        if is_in_row(b, y) && !is_odd_at(segments, b) {
            return false;
        }
        i = i + 1;
    }
    proof {
        lemma_ends_decide(segments@, y as int);
    }
    true
}

} // verus!
