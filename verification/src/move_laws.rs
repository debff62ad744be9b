//! An outline that moves by whole pixels takes its hits, and what is known of
//! the gaps between them, along.
use crate::hits::{Hit, RawHit};
use crate::inside;
use crate::ordered;
use crate::ordered::{Rank, Ranked};
use crate::outline;
use crate::outline::Traced;
use crate::pixel_laws;
use crate::scalar::Scalar;
use vstd::arithmetic::power2::*;
use vstd::prelude::*;

verus! {

/// `b` is `a` moved by `d` pixels.
pub open spec fn number_moved(a: Scalar, b: Scalar, d: int) -> bool {
    a.is_finite() && b.is_finite() && b.value() == a.value() + d * pow2(149)
}

/// The middle of the two coordinates is exact, in a pixel of the range.
pub open spec fn has_exact_middle(a: Scalar, b: Scalar) -> bool {
    let sum = a.value() + b.value();
    pixel_laws::exact_sum(a, b) && pixel_laws::in_range(sum) && sum != -1
}

/// The cuts `b` are the cuts `a` moved by `dx` and `dy` pixels.
pub open spec fn cuts_moved(a: Seq<RawHit>, b: Seq<RawHit>, dx: int, dy: int) -> bool {
    &&& a.len() == b.len()
    &&& forall|i: int|
        0 <= i < a.len() ==> {
            &&& number_moved((#[trigger] a[i]).position.x, b[i].position.x, dx)
            &&& number_moved(a[i].position.y, b[i].position.y, dy)
        }
}

/// Each piece between two of the cuts has an exact middle.
pub open spec fn have_exact_middles(cuts: Seq<RawHit>) -> bool {
    forall|i: int|
        0 <= i < cuts.len() - 1 ==> {
            &&& has_exact_middle((#[trigger] cuts[i]).position.x, cuts[i + 1].position.x)
            &&& has_exact_middle(cuts[i].position.y, cuts[i + 1].position.y)
        }
}

/// The traced segment `b` is the traced segment `a` moved by `dx` and `dy`
/// pixels, with exact middles in both places.
pub open spec fn trace_moved(a: Traced, b: Traced, dx: int, dy: int) -> bool {
    let (p, q) = (
        outline::cuts(a.segment, a.crossings@),
        outline::cuts(b.segment, b.crossings@),
    );
    &&& cuts_moved(p, q, dx, dy)
    &&& have_exact_middles(p)
    &&& have_exact_middles(q)
    &&& number_moved(a.segment.from.y, b.segment.from.y, dy)
    &&& number_moved(a.segment.to.y, b.segment.to.y, dy)
}

/// The same of each traced segment.
pub open spec fn outline_moved(a: Seq<Traced>, b: Seq<Traced>, dx: int, dy: int) -> bool {
    &&& a.len() == b.len()
    &&& forall|k: int| 0 <= k < a.len() ==> trace_moved(#[trigger] a[k], b[k], dx, dy)
}

/// The hit `b` is the hit `a` moved by `dx` and `dy` pixels; what is known of
/// the pixels before it is left aside.
pub open spec fn hit_moved(a: Hit, b: Hit, dx: int, dy: int) -> bool {
    &&& b.x == a.x + dx
    &&& b.y == a.y + dy
    &&& number_moved(a.y_range.start, b.y_range.start, dy)
    &&& number_moved(a.y_range.end, b.y_range.end, dy)
    &&& b.segment_id == a.segment_id
}

/// The same of each hit.
pub open spec fn hits_moved(a: Seq<Hit>, b: Seq<Hit>, dx: int, dy: int) -> bool {
    &&& a.len() == b.len()
    &&& forall|i: int| 0 <= i < a.len() ==> hit_moved(#[trigger] a[i], b[i], dx, dy)
}

proof fn lemma_cell_moved(cell: int, other: int, sum: int, d: int)
    requires
        pixel_laws::holds_half(cell, sum),
        pixel_laws::holds_half(other, sum + 2 * (d * pow2(149))),
    ensures
        other == cell + d,
{
    let w = pow2(149) as int;
    lemma_pow2_pos(149);
    assert(other == cell + d) by (nonlinear_arith)
        requires
            2 * cell * w <= sum < 2 * (cell + 1) * w,
            2 * other * w <= sum + 2 * (d * w) < 2 * (other + 1) * w,
            w > 0,
    ;
}

proof fn lemma_piece_moved(
    a: RawHit,
    b: RawHit,
    p: RawHit,
    q: RawHit,
    id: usize,
    dx: int,
    dy: int,
)
    requires
        number_moved(a.position.x, p.position.x, dx),
        number_moved(a.position.y, p.position.y, dy),
        number_moved(b.position.x, q.position.x, dx),
        number_moved(b.position.y, q.position.y, dy),
        has_exact_middle(a.position.x, b.position.x),
        has_exact_middle(a.position.y, b.position.y),
        has_exact_middle(p.position.x, q.position.x),
        has_exact_middle(p.position.y, q.position.y),
    ensures
        hit_moved(outline::hit_between(a, b, id), outline::hit_between(p, q, id), dx, dy),
{
    let (h, k) = (outline::hit_between(a, b, id), outline::hit_between(p, q, id));
    pixel_laws::law_pixel_holds_the_exact_middle(a, b, id);
    pixel_laws::law_pixel_holds_the_exact_middle(p, q, id);
    lemma_cell_moved(
        h.x as int,
        k.x as int,
        a.position.x.value() + b.position.x.value(),
        dx,
    );
    lemma_cell_moved(
        h.y as int,
        k.y as int,
        a.position.y.value() + b.position.y.value(),
        dy,
    );
    pixel_laws::law_heights_of_a_hit(a, b, id);
    pixel_laws::law_heights_of_a_hit(p, q, id);
}

proof fn lemma_pieces_moved(a: Traced, b: Traced, id: usize, dx: int, dy: int)
    requires
        trace_moved(a, b, dx, dy),
    ensures
        hits_moved(
            outline::hits_between(outline::cuts(a.segment, a.crossings@), id),
            outline::hits_between(outline::cuts(b.segment, b.crossings@), id),
            dx,
            dy,
        ),
{
    let (p, q) = (
        outline::cuts(a.segment, a.crossings@),
        outline::cuts(b.segment, b.crossings@),
    );
    let (g, h) = (outline::hits_between(p, id), outline::hits_between(q, id));
    assert forall|i: int| 0 <= i < g.len() implies hit_moved(#[trigger] g[i], h[i], dx, dy) by {
        assert(p[i] == p[i] && p[i + 1] == p[i + 1] && q[i] == q[i]);
        lemma_piece_moved(p[i], p[i + 1], q[i], q[i + 1], id, dx, dy);
    }
}

proof fn lemma_all_pieces_moved(a: Seq<Traced>, b: Seq<Traced>, n: int, dx: int, dy: int)
    requires
        outline_moved(a, b, dx, dy),
        0 <= n <= a.len(),
    ensures
        hits_moved(outline::pieces_of(a, n), outline::pieces_of(b, n), dx, dy),
    decreases n,
{
    if n > 0 {
        lemma_all_pieces_moved(a, b, n - 1, dx, dy);
        assert(trace_moved(a[n - 1], b[n - 1], dx, dy));
        lemma_pieces_moved(a[n - 1], b[n - 1], (n - 1) as usize, dx, dy);
        let (g, h) = (outline::pieces_of(a, n - 1), outline::pieces_of(b, n - 1));
        let (p, q) = (
            outline::hits_between(outline::cuts_at(a, n - 1), (n - 1) as usize),
            outline::hits_between(outline::cuts_at(b, n - 1), (n - 1) as usize),
        );
        assert forall|i: int| 0 <= i < (g + p).len() implies hit_moved(
            #[trigger] (g + p)[i],
            (h + q)[i],
            dx,
            dy,
        ) by {
            if i < g.len() {
                assert(hit_moved(g[i], h[i], dx, dy));
            } else {
                assert(hit_moved(p[i - g.len()], q[i - g.len()], dx, dy));
            }
        }
    }
}

proof fn lemma_insertion_moved(a: Seq<Hit>, b: Seq<Hit>, p: Hit, q: Hit, dx: int, dy: int)
    requires
        hits_moved(a, b, dx, dy),
        hit_moved(p, q, dx, dy),
    ensures
        hits_moved(ordered::inserted(a, p), ordered::inserted(b, q), dx, dy),
{
    let i = ordered::position(a, p);
    ordered::lemma_position_bounds(a, p);
    assert forall|j: int| 0 <= j < b.len() implies q.ranked(#[trigger] b[j]) == p.ranked(a[j]) by {
        assert(hit_moved(a[j], b[j], dx, dy));
    }
    assert forall|j: int| 0 <= j < i implies q.ranked(#[trigger] b[j]) == Rank::After by {
        assert(p.ranked(a[j]) == Rank::After);
    }
    if i < b.len() {
        assert(q.ranked(b[i]) == p.ranked(a[i]));
    }
    ordered::lemma_position(b, q, i);
    let (g, h) = (ordered::inserted(a, p), ordered::inserted(b, q));
    assert forall|j: int| 0 <= j < g.len() implies hit_moved(#[trigger] g[j], h[j], dx, dy) by {
        if g.len() == a.len() {
            assert(hit_moved(a[j], b[j], dx, dy));
        } else if j < i {
            assert(hit_moved(a[j], b[j], dx, dy));
        } else if j > i {
            assert(hit_moved(a[j - 1], b[j - 1], dx, dy));
        }
    }
}

proof fn lemma_earliest_moved(a: Seq<Hit>, b: Seq<Hit>, dx: int, dy: int)
    requires
        hits_moved(a, b, dx, dy),
    ensures
        hits_moved(outline::earliest(a), outline::earliest(b), dx, dy),
    decreases a.len(),
{
    if a.len() > 0 {
        let (p, q) = (a.drop_last(), b.drop_last());
        assert forall|i: int| 0 <= i < p.len() implies hit_moved(#[trigger] p[i], q[i], dx, dy) by {
            assert(hit_moved(a[i], b[i], dx, dy));
        }
        lemma_earliest_moved(p, q, dx, dy);
        let l = a.len() - 1;
        assert(hit_moved(a[l], b[l], dx, dy));
        lemma_insertion_moved(
            outline::earliest(p),
            outline::earliest(q),
            a.last(),
            b.last(),
            dx,
            dy,
        );
    }
}

proof fn lemma_left_moved(a: Traced, b: Traced, px: int, y: int, dx: int, dy: int)
    requires
        trace_moved(a, b, dx, dy),
    ensures
        outline::passes_left(a, px, y) <==> outline::passes_left(b, px + dx, y + dy),
{
    let (g, h) = (
        outline::hits_between(outline::cuts(a.segment, a.crossings@), 0),
        outline::hits_between(outline::cuts(b.segment, b.crossings@), 0),
    );
    lemma_pieces_moved(a, b, 0, dx, dy);
    if outline::passes_left(a, px, y) {
        let j = choose|j: int| 0 <= j < g.len() && outline::is_left(#[trigger] g[j], px, y);
        assert(hit_moved(g[j], h[j], dx, dy));
        assert(outline::is_left(h[j], px + dx, y + dy));
    }
    if outline::passes_left(b, px + dx, y + dy) {
        let j = choose|j: int|
            0 <= j < h.len() && outline::is_left(#[trigger] h[j], px + dx, y + dy);
        assert(hit_moved(g[j], h[j], dx, dy));
        assert(outline::is_left(g[j], px, y));
    }
}

/// As many edges are to the left, at the height that has moved along.
proof fn lemma_edges_moved(
    a: Seq<Traced>,
    b: Seq<Traced>,
    n: int,
    px: int,
    y: int,
    v: int,
    dx: int,
    dy: int,
)
    requires
        outline_moved(a, b, dx, dy),
        0 <= n <= a.len(),
    ensures
        inside::edges_at(outline::left_of(b, n, px + dx, y + dy), v + dy * pow2(149))
            == inside::edges_at(outline::left_of(a, n, px, y), v),
    decreases n,
{
    if n > 0 {
        lemma_edges_moved(a, b, n - 1, px, y, v, dx, dy);
        assert(trace_moved(a[n - 1], b[n - 1], dx, dy));
        lemma_left_moved(a[n - 1], b[n - 1], px, y, dx, dy);
        let (g, h) = (
            outline::left_of(a, n - 1, px, y),
            outline::left_of(b, n - 1, px + dx, y + dy),
        );
        let (s, r) = (a[n - 1].segment, b[n - 1].segment);
        assert(inside::crosses_height(s, v) == inside::crosses_height(r, v + dy * pow2(149)));
        if outline::passes_left(a[n - 1], px, y) {
            assert(g.push(s).drop_last() =~= g);
            assert(h.push(r).drop_last() =~= h);
        }
    }
}

proof fn lemma_covered_moved(
    a: Seq<Traced>,
    b: Seq<Traced>,
    n: int,
    px: int,
    y: int,
    dx: int,
    dy: int,
)
    requires
        outline_moved(a, b, dx, dy),
        0 <= n <= a.len(),
    ensures
        inside::covered(outline::left_of(a, n, px, y), y) == inside::covered(
            outline::left_of(b, n, px + dx, y + dy),
            y + dy,
        ),
{
    let (g, h) = (outline::left_of(a, n, px, y), outline::left_of(b, n, px + dx, y + dy));
    let d = dy * pow2(149);
    assert forall|v: int| inside::in_row(v, y) <==> #[trigger] inside::in_row(v + d, y + dy) by {
        let w = pow2(149) as int;
        assert((y + dy) * w == y * w + d && (y + dy + 1) * w == (y + 1) * w + d)
            by (nonlinear_arith)
            requires
                d == dy * w,
        ;
    }
    if inside::covered(g, y) {
        assert forall|u: int| #[trigger] inside::in_row(u, y + dy) implies inside::edges_at(h, u)
            % 2 == 1 by {
            let v = u - d;
            assert(inside::in_row(v + d, y + dy));
            assert(inside::in_row(v, y));
            lemma_edges_moved(a, b, n, px, y, v, dx, dy);
        }
    }
    if inside::covered(h, y + dy) {
        assert forall|v: int| #[trigger] inside::in_row(v, y) implies inside::edges_at(g, v) % 2
            == 1 by {
            assert(inside::in_row(v + d, y + dy));
            lemma_edges_moved(a, b, n, px, y, v, dx, dy);
        }
    }
}

/// An outline moved by whole pixels, exactly, has its hits moved by as many
/// pixels. They name the same segments, their heights move along, and what is
/// known of the gaps between them stays as it is.
pub proof fn law_outlines_move(a: Seq<Traced>, b: Seq<Traced>, n: int, dx: int, dy: int)
    requires
        outline_moved(a, b, dx, dy),
        0 <= n <= a.len(),
    ensures
        hits_moved(outline::hits_of(a, n), outline::hits_of(b, n), dx, dy),
        forall|i: int|
            0 <= i < outline::hits_of(a, n).len() ==> (#[trigger] outline::hits_of(a, n)[i]).uncovered
                == outline::hits_of(b, n)[i].uncovered,
{
    let (p, q) = (
        outline::earliest(outline::pieces_of(a, n)),
        outline::earliest(outline::pieces_of(b, n)),
    );
    let (g, h) = (outline::hits_of(a, n), outline::hits_of(b, n));
    lemma_all_pieces_moved(a, b, n, dx, dy);
    lemma_earliest_moved(outline::pieces_of(a, n), outline::pieces_of(b, n), dx, dy);
    assert forall|i: int| 0 <= i < g.len() implies hit_moved(#[trigger] g[i], h[i], dx, dy) && g[
        i].uncovered == h[i].uncovered by {
        assert(hit_moved(p[i], q[i], dx, dy));
        if i > 0 {
            assert(hit_moved(p[i - 1], q[i - 1], dx, dy));
        }
        lemma_covered_moved(a, b, n, p[i].x as int, p[i].y as int, dx, dy);
        assert(outline::leaves_gap(a, n, p, i) == outline::leaves_gap(b, n, q, i));
    }
}

} // verus!
