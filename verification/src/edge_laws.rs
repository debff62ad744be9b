//! Which edges lie to the left of a gap, and at which heights they count.
use crate::geometry::Segment;
use crate::inside;
use crate::ordered::{Rank, Ranked};
use crate::outline;
use crate::outline::Traced;
use crate::span_laws;
use vstd::arithmetic::power2::*;
use vstd::prelude::*;

verus! {

/// One end of the segment is at the height of `v` steps or below, the other
/// above it.
pub open spec fn reaches_across(segment: Segment, v: int) -> bool {
    let (a, b) = (segment.from.y, segment.to.y);
    !a.is_nan() && !b.is_nan() && (a.value() <= v) != (b.value() <= v)
}

/// Edges are counted one by one: none of no segments, one or none of a single
/// segment, and of two lists together as many as of both.
pub proof fn law_edges_add_up(a: Seq<Segment>, b: Seq<Segment>, segment: Segment, v: int)
    ensures
        inside::edges_at(Seq::empty(), v) == 0,
        inside::edges_at(seq![segment], v) == if reaches_across(segment, v) {
            1int
        } else {
            0
        },
        inside::edges_at(a + b, v) == inside::edges_at(a, v) + inside::edges_at(b, v),
    decreases b.len(),
{
    let one = seq![segment];
    assert(one.drop_last() =~= Seq::empty());
    assert(inside::edges_at(one.drop_last(), v) == 0);
    if b.len() == 0 {
        assert(a + b =~= a);
    } else {
        law_edges_add_up(a, b.drop_last(), segment, v);
        assert((a + b).drop_last() =~= a + b.drop_last());
        assert((a + b).last() == b.last());
    }
}

/// A row is covered exactly where an odd number of edges crosses it at each of
/// its heights, from its lower side up to, but without, its upper side.
pub proof fn law_covered_rows(segments: Seq<Segment>, y: int)
    ensures
        inside::covered(segments, y) <==> forall|v: int|
            y * pow2(149) <= v < (y + 1) * pow2(149) ==> #[trigger] inside::edges_at(segments, v)
                % 2 == 1,
{
    if inside::covered(segments, y) {
        assert forall|v: int| y * pow2(149) <= v < (y + 1) * pow2(149) implies
            #[trigger] inside::edges_at(segments, v) % 2 == 1 by {
            assert(inside::in_row(v, y));
        }
    }
}

/// A row stays covered, or uncovered, where an edge is cut in two at any height
/// between its ends.
pub proof fn law_cut_edges_cover_alike(
    segments: Seq<Segment>,
    whole: Segment,
    lower: Segment,
    upper: Segment,
    y: int,
)
    requires
        !whole.from.y.is_nan() && !whole.to.y.is_nan(),
        lower.from == whole.from,
        lower.to == upper.from,
        upper.to == whole.to,
        !lower.to.y.is_nan(),
        whole.from.y.value() <= lower.to.y.value() <= whole.to.y.value(),
    ensures
        inside::covered(segments + seq![whole], y) == inside::covered(
            segments + seq![lower, upper],
            y,
        ),
{
    let (a, b) = (segments + seq![whole], segments + seq![lower, upper]);
    assert(seq![lower, upper] =~= seq![lower] + seq![upper]);
    assert forall|v: int| inside::edges_at(a, v) == inside::edges_at(b, v) by {
        law_edges_add_up(segments, seq![whole], whole, v);
        law_edges_add_up(segments, seq![lower, upper], lower, v);
        law_edges_add_up(seq![lower], seq![upper], upper, v);
        law_edges_add_up(seq![lower], seq![upper], lower, v);
    }
}

/// A segment has a piece in row `y`, in a column below `px`.
pub open spec fn has_piece_left(traced: Traced, px: int, y: int) -> bool {
    let cuts = outline::cuts(traced.segment, traced.crossings@);
    exists|i: int|
        0 <= i < cuts.len() - 1 && {
            let piece = outline::hit_between(#[trigger] cuts[i], cuts[i + 1], 0);
            piece.y == y && piece.x < px
        }
}

/// How many of the first `n` segments have a piece in row `y`, in a column
/// below `px`, and reach across the height of `v` steps.
pub open spec fn count_left(traced: Seq<Traced>, n: int, px: int, y: int, v: int) -> nat
    decreases n,
{
    if n <= 0 {
        0
    } else {
        count_left(traced, n - 1, px, y, v) + (if has_piece_left(traced[n - 1], px, y)
            && reaches_across(traced[n - 1].segment, v) {
            1nat
        } else {
            0nat
        })
    }
}

/// A segment is to the left of the pixel (px, y) exactly where it has a piece
/// whose pixel is in row `y` and in a column below `px`, whichever that is.
pub proof fn law_left_segments(traced: Traced, px: int, y: int)
    ensures
        outline::passes_left(traced, px, y) <==> has_piece_left(traced, px, y),
{
    let cuts = outline::cuts(traced.segment, traced.crossings@);
    let pieces = outline::hits_between(cuts, 0);
    if outline::passes_left(traced, px, y) {
        let j = choose|j: int|
            0 <= j < pieces.len() && outline::is_left(#[trigger] pieces[j], px, y);
        assert(pieces[j] == outline::hit_between(cuts[j], cuts[j + 1], 0));
    }
    if has_piece_left(traced, px, y) {
        let i = choose|i: int|
            0 <= i < cuts.len() - 1 && {
                let piece = outline::hit_between(#[trigger] cuts[i], cuts[i + 1], 0);
                piece.y == y && piece.x < px
            };
        assert(outline::is_left(pieces[i], px, y));
    }
}

/// The edges to the left of a pixel, at a height, are the segments that have a
/// piece to its left in the row and reach across the height.
pub proof fn law_edges_to_the_left(traced: Seq<Traced>, n: int, px: int, y: int, v: int)
    ensures
        span_laws::edges_left_at(traced, n, px, y, v) == count_left(traced, n, px, y, v),
    decreases n,
{
    if n > 0 {
        law_edges_to_the_left(traced, n - 1, px, y, v);
        law_left_segments(traced[n - 1], px, y);
        let before = outline::left_of(traced, n - 1, px, y);
        let all = outline::left_of(traced, n, px, y);
        if outline::passes_left(traced[n - 1], px, y) {
            assert(all.drop_last() =~= before);
        }
    }
}

/// At the height of `v` steps, which is one of row `y`, an even number of edges
/// lies to the left of `px`.
pub open spec fn is_open_at(traced: Seq<Traced>, n: int, px: int, y: int, v: int) -> bool {
    y * pow2(149) <= v < (y + 1) * pow2(149) && count_left(traced, n, px, y, v) % 2 == 0
}

/// A hit is marked exactly where the hit before it is in its row, at least one
/// pixel lies between them, and at some height of the row an even number of
/// edges lies to its left.
pub proof fn law_marks_by_count(traced: Seq<Traced>, n: int, k: int)
    requires
        0 <= k < outline::hits_of(traced, n).len(),
    ensures
        ({
            let hits = outline::hits_of(traced, n);
            hits[k].uncovered <==> {
                &&& k > 0
                &&& hits[k - 1].y == hits[k].y
                &&& hits[k].x - hits[k - 1].x > 1
                &&& exists|v: int| #[trigger]
                    is_open_at(traced, n, hits[k].x as int, hits[k].y as int, v)
            }
        }),
{
    let hits = outline::hits_of(traced, n);
    let (x, y) = (hits[k].x as int, hits[k].y as int);
    span_laws::law_marks_are_right(traced, n, k);
    outline::lemma_hits_of(traced, n);
    if k > 0 {
        assert(hits[k - 1].ranked(hits[k]) == Rank::Before);
    }
    if exists|v: int| #[trigger] is_open_at(traced, n, x, y, v) {
        let v = choose|v: int| #[trigger] is_open_at(traced, n, x, y, v);
        law_edges_to_the_left(traced, n, x, y, v);
        assert(inside::in_row(v, y));
    }
    if exists|v: int| #[trigger]
        inside::in_row(v, y) && span_laws::edges_left_at(traced, n, x, y, v) % 2 == 0 {
        let v = choose|v: int| #[trigger]
            inside::in_row(v, y) && span_laws::edges_left_at(traced, n, x, y, v) % 2 == 0;
        law_edges_to_the_left(traced, n, x, y, v);
        assert(is_open_at(traced, n, x, y, v));
    }
}

} // verus!
