//! Spans are completely covered.
use crate::geometry::Point;
use crate::hits::Hit;
use crate::inside;
use crate::laws;
use crate::ordered;
use crate::ordered::{Rank, Ranked};
use crate::outline;
use crate::outline::Traced;
use crate::outline_laws;
use crate::region_list;
use crate::region_list::ShadeCommand;
use crate::regions;
use crate::regions::Region;
use crate::scalar::Scalar;
use vstd::prelude::*;

verus! {

/// How many of the first `n` segments cross the height of `v` steps and pass
/// through row `y` to the left of the pixel at `px`.
pub open spec fn edges_left_at(traced: Seq<Traced>, n: int, px: int, y: int, v: int) -> nat {
    inside::edges_at(outline::left_of(traced, n, px, y), v)
}

/// The pixels between `hits[k]` and the hit before it have no hit.
proof fn lemma_no_hit_between(hits: Seq<Hit>, k: int, x: int)
    requires
        ordered::increasing(hits),
        0 < k < hits.len(),
        regions::follows(hits, k),
        laws::between(hits, k, x, hits[k].y as int),
    ensures
        !outline_laws::hit_at(hits, x, hits[k].y as int),
{
    let y = hits[k].y as int;
    assert forall|i: int| 0 <= i < hits.len() implies !outline_laws::in_pixel(
        #[trigger] hits[i],
        x,
        y,
    ) by {
        if i < k - 1 {
            assert(hits[i].ranked(hits[k - 1]) == Rank::Before);
        } else if i > k {
            assert(hits[k].ranked(hits[i]) == Rank::Before);
        }
    }
}

/// The outline has no piece in the pixels between two neighbouring hits of a
/// row.
pub proof fn law_no_piece_between_hits(traced: Seq<Traced>, n: int, k: int, x: int)
    requires
        0 <= n <= traced.len(),
        0 < k < outline::hits_of(traced, n).len(),
        regions::follows(outline::hits_of(traced, n), k),
        laws::between(
            outline::hits_of(traced, n),
            k,
            x,
            outline::hits_of(traced, n)[k].y as int,
        ),
    ensures
        forall|j: int|
            0 <= j < n ==> !outline_laws::passes(
                #[trigger] traced[j],
                x,
                outline::hits_of(traced, n)[k].y as int,
            ),
{
    let hits = outline::hits_of(traced, n);
    let y = hits[k].y as int;
    outline::lemma_hits_of(traced, n);
    lemma_no_hit_between(hits, k, x);
    outline_laws::lemma_hit_pixels(traced, n, x, y);
    outline_laws::lemma_pieces_at(traced, n, x, y);
}

/// From each pixel between two hits of a row, the same segments are to the
/// left.
proof fn lemma_same_left(traced: Seq<Traced>, n: int, m: int, k: int, px: int)
    requires
        0 <= m <= n <= traced.len(),
        0 < k < outline::hits_of(traced, n).len(),
        regions::follows(outline::hits_of(traced, n), k),
        laws::between(
            outline::hits_of(traced, n),
            k,
            px,
            outline::hits_of(traced, n)[k].y as int,
        ),
    ensures
        ({
            let hit = outline::hits_of(traced, n)[k];
            outline::left_of(traced, m, px, hit.y as int) == outline::left_of(
                traced,
                m,
                hit.x as int,
                hit.y as int,
            )
        }),
    decreases m,
{
    if m > 0 {
        let hits = outline::hits_of(traced, n);
        let (x, y) = (hits[k].x as int, hits[k].y as int);
        let t = traced[m - 1];
        lemma_same_left(traced, n, m - 1, k, px);
        if outline::passes_left(t, x, y) && !outline::passes_left(t, px, y) {
            let own = outline::hits_between(outline::cuts(t.segment, t.crossings@), 0);
            let j = choose|j: int|
                0 <= j < own.len() && outline::is_left(#[trigger] own[j], x, y);
            let z = own[j].x as int;
            assert(!outline::is_left(own[j], px, y));
            assert(laws::between(hits, k, z, y));
            law_no_piece_between_hits(traced, n, k, z);
            assert(outline_laws::in_pixel(own[j], z, y));
            assert(outline_laws::passes(t, z, y)) by {
                reveal(outline_laws::passes);
            }
            assert(!outline_laws::passes(traced[m - 1], z, y));
        }
        if outline::passes_left(t, px, y) {
            let own = outline::hits_between(outline::cuts(t.segment, t.crossings@), 0);
            let j = choose|j: int|
                0 <= j < own.len() && outline::is_left(#[trigger] own[j], px, y);
            assert(outline::is_left(own[j], x, y));
        }
    }
}

/// A hit is marked as having uncovered pixels before it exactly where there are
/// pixels between it and the hit before it in its row and, at some height of
/// the row, an even number of edges lies to their left.
pub proof fn law_marks_are_right(traced: Seq<Traced>, n: int, k: int)
    requires
        0 <= k < outline::hits_of(traced, n).len(),
    ensures
        ({
            let hits = outline::hits_of(traced, n);
            let (x, y) = (hits[k].x as int, hits[k].y as int);
            hits[k].uncovered <==> {
                &&& regions::follows(hits, k)
                &&& regions::apart(hits[k - 1], hits[k])
                &&& exists|v: int| #[trigger]
                    inside::in_row(v, y) && edges_left_at(traced, n, x, y, v) % 2 == 0
            }
        }),
{
    let hits = outline::hits_of(traced, n);
    let first = outline::earliest(outline::pieces_of(traced, n));
    let (x, y) = (hits[k].x as int, hits[k].y as int);
    assert(hits[k].uncovered == outline::leaves_gap(traced, n, first, k));
    let left = outline::left_of(traced, n, x, y);
    if !inside::covered(left, y) {
        let v = choose|v: int| #[trigger]
            inside::in_row(v, y) && !(inside::edges_at(left, v) % 2 == 1);
        assert(inside::in_row(v, y) && edges_left_at(traced, n, x, y, v) % 2 == 0);
    }
}

/// Spans are completely covered: the outline has no piece in any pixel of a
/// span, and at every height of its row an odd number of edges lies to the left
/// of the pixel.
pub proof fn law_spans_are_covered(traced: Seq<Traced>, n: int, i: int, px: int, v: int)
    requires
        0 <= n <= traced.len(),
        ({
            let hits = outline::hits_of(traced, n);
            let all = regions::regions_of(hits, hits.len() as int);
            &&& 0 <= i < all.len()
            &&& all[i] matches Region::Span { start_x, end_x, y } && start_x <= px < end_x
                && inside::in_row(v, y as int)
        }),
    ensures
        ({
            let hits = outline::hits_of(traced, n);
            let y = regions::regions_of(hits, hits.len() as int)[i]->Span_y as int;
            &&& edges_left_at(traced, n, px, y, v) % 2 == 1
            &&& forall|j: int| 0 <= j < n ==> !outline_laws::passes(#[trigger] traced[j], px, y)
        }),
{
    let hits = outline::hits_of(traced, n);
    outline::lemma_hits_of(traced, n);
    laws::law_spans_lie_between_hits(hits, hits.len() as int, i);
    let all = regions::regions_of(hits, hits.len() as int);
    let k = choose|k: int|
        {
            &&& 0 < k < hits.len()
            &&& #[trigger] regions::closes_span(hits, k)
            &&& all[i]->start_x == hits[k - 1].x + 1
            &&& all[i]->end_x == hits[k].x
            &&& all[i]->Span_y == hits[k].y
        };
    let (x, y) = (hits[k].x as int, hits[k].y as int);
    law_no_piece_between_hits(traced, n, k, px);
    lemma_same_left(traced, n, n, k, px);
    law_marks_are_right(traced, n, k);
    assert(inside::in_row(v, y) && edges_left_at(traced, n, x, y, v) % 2 == 1);
}

/// What a command shades as a span is completely covered.
pub proof fn law_shaded_spans_are_covered(
    traced: Seq<Traced>,
    n: int,
    commands: Seq<ShadeCommand>,
    covered: spec_fn(Point, Scalar) -> bool,
    i: int,
    px: int,
    v: int,
)
    requires
        0 <= n <= traced.len(),
        region_list::shade_hits(commands, outline::hits_of(traced, n), covered),
        0 <= i < commands.len(),
        commands[i] matches ShadeCommand::Span { x, y } && x.start <= px < x.end
            && inside::in_row(v, y as int),
    ensures
        edges_left_at(traced, n, px, commands[i]->Span_y as int, v) % 2 == 1,
        forall|j: int|
            0 <= j < n ==> !outline_laws::passes(
                #[trigger] traced[j],
                px,
                commands[i]->Span_y as int,
            ),
{
    let hits = outline::hits_of(traced, n);
    let all = regions::regions_of(hits, hits.len() as int);
    assert(region_list::shades(commands[i], all[i], covered));
    law_spans_are_covered(traced, n, i, px, v);
}

} // verus!
