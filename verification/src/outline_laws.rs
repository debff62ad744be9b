//! What holds of the hits of an outline.
use crate::geometry::Segment;
use crate::hits;
use crate::hits::{Hit, RawHit};
use crate::ordered;
use crate::ordered::{Rank, Ranked};
use crate::outline;
use crate::outline::Traced;
use crate::rounding;
use crate::scalar;
use crate::scalar::Scalar;
use vstd::arithmetic::power2::*;
use vstd::prelude::*;

verus! {

/// The piece lies in the pixel (x, y).
pub open spec fn in_pixel(piece: Hit, x: int, y: int) -> bool {
    piece.x == x && piece.y == y
}

/// One of the hits is that of the pixel (x, y).
pub open spec fn hit_at(hits: Seq<Hit>, x: int, y: int) -> bool {
    exists|i: int| 0 <= i < hits.len() && in_pixel(#[trigger] hits[i], x, y)
}

/// The pixels that are hit.
pub open spec fn pixels(hits: Seq<Hit>) -> Set<(int, int)> {
    Set::new(|p: (int, int)| hit_at(hits, p.0, p.1))
}

/// A piece of the segment lies in the pixel (x, y).
#[verifier::opaque]
pub open spec fn passes(traced: Traced, x: int, y: int) -> bool {
    hit_at(outline::hits_between(outline::cuts(traced.segment, traced.crossings@), 0), x, y)
}

/// The piece at index `j` is the first one in its pixel.
pub open spec fn is_first(pieces: Seq<Hit>, j: int) -> bool {
    &&& 0 <= j < pieces.len()
    &&& forall|k: int|
        0 <= k < j ==> !in_pixel(#[trigger] pieces[k], pieces[j].x as int, pieces[j].y as int)
}

/// `hit` is a piece that is the first one in its pixel.
pub open spec fn first_piece(pieces: Seq<Hit>, hit: Hit) -> bool {
    exists|j: int| #[trigger] is_first(pieces, j) && pieces[j] == hit
}

proof fn lemma_first_of_more(pieces: Seq<Hit>, j: int)
    requires
        0 <= j < pieces.len() - 1,
    ensures
        is_first(pieces, j) <==> is_first(pieces.drop_last(), j),
{
    let fewer = pieces.drop_last();
    let (x, y) = (pieces[j].x as int, pieces[j].y as int);
    if is_first(pieces, j) {
        assert forall|k: int| 0 <= k < j implies !in_pixel(#[trigger] fewer[k], x, y) by {
            assert(!in_pixel(pieces[k], x, y));
        }
    }
    if is_first(fewer, j) {
        assert forall|k: int| 0 <= k < j implies !in_pixel(#[trigger] pieces[k], x, y) by {
            assert(!in_pixel(fewer[k], x, y));
        }
    }
}

proof fn lemma_last_is_first(pieces: Seq<Hit>)
    requires
        pieces.len() > 0,
    ensures
        is_first(pieces, pieces.len() - 1) <==> !hit_at(
            pieces.drop_last(),
            pieces.last().x as int,
            pieces.last().y as int,
        ),
{
    let fewer = pieces.drop_last();
    let n = pieces.len() - 1;
    let (x, y) = (pieces.last().x as int, pieces.last().y as int);
    if hit_at(fewer, x, y) {
        let k = choose|k: int| 0 <= k < fewer.len() && in_pixel(#[trigger] fewer[k], x, y);
        assert(in_pixel(pieces[k], x, y));
    } else {
        assert forall|k: int| 0 <= k < n implies !in_pixel(#[trigger] pieces[k], x, y) by {
            assert(!in_pixel(fewer[k], x, y));
        }
    }
}

proof fn lemma_first_piece_of_more(pieces: Seq<Hit>, hit: Hit)
    requires
        pieces.len() > 0,
    ensures
        first_piece(pieces, hit) <==> first_piece(pieces.drop_last(), hit) || (hit
            == pieces.last() && !hit_at(pieces.drop_last(), hit.x as int, hit.y as int)),
{
    let fewer = pieces.drop_last();
    let n = pieces.len() - 1;
    lemma_last_is_first(pieces);
    if first_piece(pieces, hit) {
        let j = choose|j: int| #[trigger] is_first(pieces, j) && pieces[j] == hit;
        if j < n {
            lemma_first_of_more(pieces, j);
            assert(is_first(fewer, j) && fewer[j] == hit);
        }
    }
    if first_piece(fewer, hit) {
        let j = choose|j: int| #[trigger] is_first(fewer, j) && fewer[j] == hit;
        lemma_first_of_more(pieces, j);
        assert(is_first(pieces, j) && pieces[j] == hit);
    }
}

/// The pixels of the earliest hits are those of the pieces.
proof fn lemma_earliest_pixels(pieces: Seq<Hit>, x: int, y: int)
    ensures
        hit_at(outline::earliest(pieces), x, y) <==> hit_at(pieces, x, y),
{
    let none = Seq::<Hit>::empty();
    let all = outline::earliest(pieces);
    ordered::lemma_all_inserted(none, pieces);
    if hit_at(all, x, y) {
        let i = choose|i: int| 0 <= i < all.len() && in_pixel(#[trigger] all[i], x, y);
        assert(none.contains(all[i]) || pieces.contains(all[i]));
        let j = choose|j: int| 0 <= j < pieces.len() && pieces[j] == all[i];
        assert(in_pixel(pieces[j], x, y));
    }
    if hit_at(pieces, x, y) {
        let j = choose|j: int| 0 <= j < pieces.len() && in_pixel(#[trigger] pieces[j], x, y);
        assert(ordered::has_same(all, pieces[j]));
        let i = choose|i: int|
            0 <= i < all.len() && pieces[j].ranked(#[trigger] all[i]) == Rank::Same;
        assert(in_pixel(all[i], x, y));
    }
}

/// The earliest hits are those of the pieces that are the first in their pixel.
proof fn lemma_earliest(pieces: Seq<Hit>, hit: Hit)
    ensures
        outline::earliest(pieces).contains(hit) <==> first_piece(pieces, hit),
    decreases pieces.len(),
{
    if pieces.len() > 0 {
        let fewer = pieces.drop_last();
        let last = pieces.last();
        let before = outline::earliest(fewer);
        let (x, y) = (last.x as int, last.y as int);
        lemma_earliest(fewer, hit);
        lemma_first_piece_of_more(pieces, hit);
        ordered::lemma_all_inserted(Seq::empty(), fewer);
        ordered::lemma_inserted_holds(before, last, hit);
        lemma_earliest_pixels(fewer, x, y);
        assert(ordered::has_same(before, last) <==> hit_at(before, x, y)) by {
            if hit_at(before, x, y) {
                let i = choose|i: int|
                    0 <= i < before.len() && in_pixel(#[trigger] before[i], x, y);
                assert(last.ranked(before[i]) == Rank::Same);
            }
            if ordered::has_same(before, last) {
                let i = choose|i: int|
                    0 <= i < before.len() && last.ranked(#[trigger] before[i]) == Rank::Same;
                assert(in_pixel(before[i], x, y));
            }
        }
    }
}

/// Every hit is that of a piece that is the first in its pixel.
proof fn lemma_hit_is_first(traced: Seq<Traced>, n: int, hit: Hit) -> (j: int)
    requires
        outline::hits_of(traced, n).contains(hit),
    ensures
        is_first(outline::pieces_of(traced, n), j),
        hit.same_piece(outline::pieces_of(traced, n)[j]),
{
    let pieces = outline::pieces_of(traced, n);
    let (a, b) = (outline::earliest(pieces), outline::hits_of(traced, n));
    outline::lemma_hits_of(traced, n);
    let i = choose|i: int| 0 <= i < b.len() && b[i] == hit;
    assert(b[i].same_piece(a[i]));
    assert(a.contains(a[i]));
    lemma_earliest(pieces, a[i]);
    choose|j: int| #[trigger] is_first(pieces, j) && pieces[j] == a[i]
}

/// Every piece that is the first in its pixel has a hit.
proof fn lemma_first_is_hit(traced: Seq<Traced>, n: int, j: int) -> (hit: Hit)
    requires
        is_first(outline::pieces_of(traced, n), j),
    ensures
        outline::hits_of(traced, n).contains(hit),
        hit.same_piece(outline::pieces_of(traced, n)[j]),
{
    let pieces = outline::pieces_of(traced, n);
    let (a, b) = (outline::earliest(pieces), outline::hits_of(traced, n));
    outline::lemma_hits_of(traced, n);
    lemma_earliest(pieces, pieces[j]);
    let i = choose|i: int| 0 <= i < a.len() && a[i] == pieces[j];
    assert(b[i].same_piece(a[i]));
    b[i]
}

/// The pixels that are hit are those of the pieces.
pub proof fn lemma_hit_pixels(traced: Seq<Traced>, n: int, x: int, y: int)
    ensures
        hit_at(outline::hits_of(traced, n), x, y) <==> hit_at(
            outline::pieces_of(traced, n),
            x,
            y,
        ),
{
    let pieces = outline::pieces_of(traced, n);
    let (a, b) = (outline::earliest(pieces), outline::hits_of(traced, n));
    outline::lemma_hits_of(traced, n);
    lemma_earliest_pixels(pieces, x, y);
    if hit_at(b, x, y) {
        let i = choose|i: int| 0 <= i < b.len() && in_pixel(#[trigger] b[i], x, y);
        assert(b[i].same_piece(a[i]));
        assert(in_pixel(a[i], x, y));
    }
    if hit_at(a, x, y) {
        let i = choose|i: int| 0 <= i < a.len() && in_pixel(#[trigger] a[i], x, y);
        assert(b[i].same_piece(a[i]));
        assert(in_pixel(b[i], x, y));
    }
}

/// A pixel has a piece exactly where one of the segments passes through it.
pub proof fn lemma_pieces_at(traced: Seq<Traced>, n: int, x: int, y: int)
    requires
        0 <= n <= traced.len(),
    ensures
        hit_at(outline::pieces_of(traced, n), x, y) <==> exists|k: int|
            0 <= k < n && passes(#[trigger] traced[k], x, y),
    decreases n,
{
    if n > 0 {
        reveal(passes);
        lemma_pieces_at(traced, n - 1, x, y);
        let all = outline::pieces_of(traced, n);
        let before = outline::pieces_of(traced, n - 1);
        let news = outline::hits_between(outline::cuts_at(traced, n - 1), (n - 1) as usize);
        let own = outline::hits_between(outline::cuts_at(traced, n - 1), 0);
        if hit_at(all, x, y) {
            let i = choose|i: int| 0 <= i < all.len() && in_pixel(#[trigger] all[i], x, y);
            if i < before.len() {
                assert(in_pixel(before[i], x, y));
            } else {
                assert(in_pixel(own[i - before.len()], x, y));
                assert(passes(traced[n - 1], x, y));
            }
        }
        if exists|k: int| 0 <= k < n && passes(#[trigger] traced[k], x, y) {
            let k = choose|k: int| 0 <= k < n && passes(#[trigger] traced[k], x, y);
            if k < n - 1 {
                let i = choose|i: int|
                    0 <= i < before.len() && in_pixel(#[trigger] before[i], x, y);
                assert(in_pixel(all[i], x, y));
            } else {
                let i = choose|i: int| 0 <= i < own.len() && in_pixel(#[trigger] own[i], x, y);
                assert(all[before.len() + i] == news[i]);
                assert(in_pixel(all[before.len() + i], x, y));
            }
        }
    }
}

/// There is at most one hit for a pixel, and the hits come by row and then by
/// column.
pub proof fn law_one_hit_for_a_pixel(traced: Seq<Traced>, n: int)
    ensures
        ordered::increasing(outline::hits_of(traced, n)),
{
    outline::lemma_hits_of(traced, n);
}

/// One of the segments has a piece in the pixel (x, y).
pub open spec fn some_passes(traced: Seq<Traced>, x: int, y: int) -> bool {
    exists|k: int| 0 <= k < traced.len() && passes(#[trigger] traced[k], x, y)
}

/// A pixel is hit exactly where one of the segments has a piece in it.
pub proof fn law_hit_pixels(traced: Seq<Traced>, x: int, y: int)
    ensures
        hit_at(outline::hits_of(traced, traced.len() as int), x, y) <==> some_passes(traced, x, y),
{
    lemma_hit_pixels(traced, traced.len() as int, x, y);
    lemma_pieces_at(traced, traced.len() as int, x, y);
}

/// Every piece of every segment has a hit at its pixel, its own or one that
/// was there before.
pub proof fn law_every_piece_is_hit(traced: Seq<Traced>, k: int, i: int)
    requires
        0 <= k < traced.len(),
        0 <= i < outline::cuts_at(traced, k).len() - 1,
    ensures
        ({
            let cuts = outline::cuts_at(traced, k);
            let piece = outline::hit_between(cuts[i], cuts[i + 1], k as usize);
            hit_at(
                outline::hits_of(traced, traced.len() as int),
                piece.x as int,
                piece.y as int,
            )
        }),
{
    let cuts = outline::cuts_at(traced, k);
    let own = outline::hits_between(cuts, 0);
    let (x, y) = (own[i].x as int, own[i].y as int);
    assert(in_pixel(own[i], x, y));
    assert(passes(traced[k], x, y)) by {
        reveal(passes);
    }
    law_hit_pixels(traced, x, y);
}

/// The pixels that the segments hit.
pub open spec fn pixels_of(traced: Seq<Traced>) -> Set<(int, int)> {
    pixels(outline::hits_of(traced, traced.len() as int))
}

proof fn lemma_pixels_of(traced: Seq<Traced>)
    ensures
        forall|p: (int, int)| #[trigger]
            pixels_of(traced).contains(p) <==> some_passes(traced, p.0, p.1),
{
    assert forall|p: (int, int)| #[trigger]
        pixels_of(traced).contains(p) <==> some_passes(traced, p.0, p.1) by {
        law_hit_pixels(traced, p.0, p.1);
    }
}

proof fn lemma_some_passes_joined(a: Seq<Traced>, b: Seq<Traced>, x: int, y: int)
    ensures
        some_passes(a + b, x, y) <==> some_passes(a, x, y) || some_passes(b, x, y),
{
    let all = a + b;
    if some_passes(all, x, y) {
        let k = choose|k: int| 0 <= k < all.len() && passes(#[trigger] all[k], x, y);
        if k < a.len() {
            assert(passes(a[k], x, y));
        } else {
            assert(passes(b[k - a.len()], x, y));
        }
    }
    if some_passes(a, x, y) {
        let k = choose|k: int| 0 <= k < a.len() && passes(#[trigger] a[k], x, y);
        assert(passes(all[k], x, y));
    }
    if some_passes(b, x, y) {
        let k = choose|k: int| 0 <= k < b.len() && passes(#[trigger] b[k], x, y);
        assert(passes(all[a.len() + k], x, y));
    }
}

/// The pixels that two lists of segments hit together are those that the one
/// or the other hits.
pub proof fn law_joined_outlines(a: Seq<Traced>, b: Seq<Traced>)
    ensures
        pixels_of(a + b) == pixels_of(a).union(pixels_of(b)),
{
    lemma_pixels_of(a);
    lemma_pixels_of(b);
    lemma_pixels_of(a + b);
    assert forall|p: (int, int)|
        pixels_of(a + b).contains(p) <==> pixels_of(a).union(pixels_of(b)).contains(p) by {
        lemma_some_passes_joined(a, b, p.0, p.1);
    }
    assert(pixels_of(a + b) =~= pixels_of(a).union(pixels_of(b)));
}

proof fn lemma_pieces_of_prefix(a: Seq<Traced>, b: Seq<Traced>, n: int)
    requires
        0 <= n <= a.len(),
    ensures
        outline::pieces_of(a + b, n) == outline::pieces_of(a, n),
    decreases n,
{
    if n > 0 {
        lemma_pieces_of_prefix(a, b, n - 1);
        assert((a + b)[n - 1] == a[n - 1]);
    }
}

proof fn lemma_pieces_grow(traced: Seq<Traced>, n: int, m: int)
    requires
        0 <= n <= m,
    ensures
        outline::pieces_of(traced, n).len() <= outline::pieces_of(traced, m).len(),
        forall|i: int|
            0 <= i < outline::pieces_of(traced, n).len() ==> #[trigger] outline::pieces_of(
                traced,
                m,
            )[i] == outline::pieces_of(traced, n)[i],
    decreases m,
{
    if n < m {
        lemma_pieces_grow(traced, n, m - 1);
        let (a, b) = (outline::pieces_of(traced, n), outline::pieces_of(traced, m - 1));
        assert forall|i: int| 0 <= i < a.len() implies #[trigger] outline::pieces_of(traced, m)[i]
            == a[i] by {
            assert(b[i] == a[i]);
        }
    }
}

/// Where several segments pass through a pixel, the hit of the first one
/// stays: segments that come after take no hit away.
pub proof fn law_first_hit_stays(a: Seq<Traced>, b: Seq<Traced>, hit: Hit)
    requires
        outline::hits_of(a, a.len() as int).contains(hit),
    ensures
        exists|kept: Hit| #[trigger]
            outline::hits_of(a + b, (a + b).len() as int).contains(kept) && kept.same_piece(hit),
{
    let n = a.len() as int;
    let few = outline::pieces_of(a, n);
    let all = outline::pieces_of(a + b, (a + b).len() as int);
    lemma_pieces_of_prefix(a, b, n);
    lemma_pieces_grow(a + b, n, (a + b).len() as int);
    let j = lemma_hit_is_first(a, n, hit);
    assert(all[j] == few[j]);
    assert forall|k: int| 0 <= k < j implies !in_pixel(
        #[trigger] all[k],
        all[j].x as int,
        all[j].y as int,
    ) by {
        assert(all[k] == few[k]);
        assert(!in_pixel(few[k], few[j].x as int, few[j].y as int));
    }
    assert(is_first(all, j));
    let kept = lemma_first_is_hit(a + b, (a + b).len() as int, j);
    assert(kept.same_piece(hit));
}

/// `hit` stands for a piece of the segment between two neighbouring cuts.
pub open spec fn is_piece(traced: Traced, hit: Hit) -> bool {
    let cuts = outline::cuts(traced.segment, traced.crossings@);
    exists|i: int|
        0 <= i < cuts.len() - 1 && hit.same_piece(
            outline::hit_between(#[trigger] cuts[i], cuts[i + 1], hit.segment_id),
        )
}

/// A hit stands for the first segment that has a piece in its pixel, and for
/// the piece that this segment has there by itself.
pub proof fn law_hit_is_of_the_first_segment(traced: Seq<Traced>, n: int, hit: Hit)
    requires
        0 <= n <= traced.len(),
        n <= usize::MAX,
        outline::hits_of(traced, n).contains(hit),
    ensures
        hit.segment_id < n,
        passes(traced[hit.segment_id as int], hit.x as int, hit.y as int),
        forall|k: int|
            0 <= k < hit.segment_id ==> !passes(
                #[trigger] traced[k],
                hit.x as int,
                hit.y as int,
            ),
        is_piece(traced[hit.segment_id as int], hit),
        exists|own: Hit|
            {
                &&& #[trigger] outline::hits_of(seq![traced[hit.segment_id as int]], 1).contains(
                    own,
                )
                &&& in_pixel(own, hit.x as int, hit.y as int)
                &&& own.y_range == hit.y_range
            },
{
    let pieces = outline::pieces_of(traced, n);
    let j = lemma_hit_is_first(traced, n, hit);
    lemma_first_piece(traced, n, j);
}

proof fn lemma_first_piece(traced: Seq<Traced>, n: int, j: int)
    requires
        0 <= n <= traced.len(),
        n <= usize::MAX,
        is_first(outline::pieces_of(traced, n), j),
    ensures
        ({
            let piece = outline::pieces_of(traced, n)[j];
            let id = piece.segment_id as int;
            &&& id < n
            &&& passes(traced[id], piece.x as int, piece.y as int)
            &&& forall|k: int|
                0 <= k < id ==> !passes(#[trigger] traced[k], piece.x as int, piece.y as int)
            &&& is_piece(traced[id], piece)
            &&& exists|own: Hit|
                {
                    &&& #[trigger] outline::hits_of(seq![traced[id]], 1).contains(own)
                    &&& in_pixel(own, piece.x as int, piece.y as int)
                    &&& own.y_range == piece.y_range
                }
        }),
    decreases n,
{
    let all = outline::pieces_of(traced, n);
    let before = outline::pieces_of(traced, n - 1);
    let (x, y) = (all[j].x as int, all[j].y as int);
    if j < before.len() {
        assert(all[j] == before[j]);
        assert forall|k: int| 0 <= k < j implies !in_pixel(
            #[trigger] before[k],
            before[j].x as int,
            before[j].y as int,
        ) by {
            assert(all[k] == before[k]);
            assert(!in_pixel(all[k], x, y));
        }
        lemma_first_piece(traced, n - 1, j);
    } else {
        let news = outline::hits_between(outline::cuts_at(traced, n - 1), (n - 1) as usize);
        let own = outline::hits_between(outline::cuts_at(traced, n - 1), 0);
        let i = j - before.len();
        assert(all[j] == news[i]);
        assert(in_pixel(own[i], x, y));
        assert(passes(traced[n - 1], x, y)) by {
            reveal(passes);
        }
        let cuts = outline::cuts_at(traced, n - 1);
        assert(all[j].same_piece(
            outline::hit_between(cuts[i], cuts[i + 1], all[j].segment_id),
        ));
        assert(!hit_at(before, x, y)) by {
            if hit_at(before, x, y) {
                let k = choose|k: int|
                    0 <= k < before.len() && in_pixel(#[trigger] before[k], x, y);
                assert(in_pixel(all[k], x, y));
            }
        }
        lemma_pieces_at(traced, n - 1, x, y);
        let one = seq![traced[n - 1]];
        assert(outline::pieces_of(one, 0) =~= Seq::empty());
        assert(outline::pieces_of(one, 1) =~= own);
        assert forall|k: int| 0 <= k < i implies !in_pixel(
            #[trigger] own[k],
            own[i].x as int,
            own[i].y as int,
        ) by {
            assert(all[before.len() + k] == news[k]);
            assert(!in_pixel(all[before.len() + k], x, y));
        }
        assert(is_first(own, i));
        let hit = lemma_first_is_hit(one, 1, i);
        assert(outline::hits_of(one, 1).contains(hit));
    }
}

/// The heights of a hit come in order, where they are numbers.
pub proof fn law_hit_heights_in_order(a: RawHit, b: RawHit, segment_id: usize)
    requires
        !a.position.y.is_nan(),
        !b.position.y.is_nan(),
    ensures
        ({
            let hit = outline::hit_between(a, b, segment_id);
            hit.y_range.start.value() <= hit.y_range.end.value()
        }),
{
}

/// A parameter between the two ends of a segment.
pub open spec fn on_segment(t: Scalar) -> bool {
    &&& !t.is_nan()
    &&& 0 <= t.value() <= (Scalar { bits: outline::ONE }).value()
}

proof fn lemma_one()
    ensures
        (Scalar { bits: outline::ONE }).value() == pow2(149),
        (Scalar { bits: outline::ONE }).is_finite(),
        (Scalar { bits: 0 }).value() == 0,
        hits::epsilon() < pow2(149),
        rounding::round_size(0) == 0,
        rounding::round_size(pow2(149)) == pow2(149),
{
    lemma2_to64();
    assert(scalar::unit_exponent(0x3f80_0000) == 126);
    assert(scalar::significand(0x3f80_0000) == 0x80_0000);
    lemma_pow2_adds(23, 126);
    lemma_pow2_strictly_increases(126, 149);
    rounding::lemma_round_exact(0, 0);
    rounding::lemma_round_exact(0x80_0000, 126);
    assert(scalar::size_of_magnitude(0) == 0);
}

proof fn lemma_inserted_between(segment: Segment, cuts: Seq<RawHit>, hit: RawHit)
    requires
        ordered::increasing(cuts),
        cuts.len() >= 2,
        cuts[0] == outline::ends(segment)[0],
        cuts.last() == outline::ends(segment)[1],
        on_segment(hit.t),
    ensures
        ordered::inserted(cuts, hit).len() >= 2,
        ordered::inserted(cuts, hit)[0] == cuts[0],
        ordered::inserted(cuts, hit).last() == cuts.last(),
{
    lemma_one();
    let (start, end) = (cuts[0], cuts.last());
    hit.t.lemma_size_kinds();
    hit.t.lemma_order_rank(start.t);
    hit.t.lemma_order_rank(end.t);
    end.t.lemma_size_kinds();
    ordered::lemma_position_bounds(cuts, hit);
    let p = ordered::position(cuts, hit);
    assert(hit.ranked(start) != ordered::Rank::Before);
    assert(hit.ranked(end) != ordered::Rank::After);
    if p == 0 {
        assert(hit.ranked(cuts[0]) == ordered::Rank::Same);
    }
    if p == cuts.len() {
        assert(hit.ranked(cuts[cuts.len() - 1]) == ordered::Rank::After);
    }
}

proof fn lemma_ends_apart(segment: Segment)
    ensures
        outline::ends(segment)[1].ranked(outline::ends(segment)[0]) == Rank::After,
{
    lemma_one();
    let (zero, one) = (Scalar { bits: 0 }, Scalar { bits: outline::ONE });
    assert(hits::distance(one, zero) == pow2(149));
    assert(!hits::near(one, zero));
    assert(hits::total_rank(zero) < hits::total_rank(one));
}

proof fn lemma_two_inserted<T: Ranked>(a: T, b: T)
    requires
        b.ranked(a) == Rank::After,
    ensures
        ordered::all_inserted(Seq::empty(), seq![a, b]) == seq![a, b],
{
    let none = Seq::<T>::empty();
    let (one, two) = (seq![a], seq![a, b]);
    assert(one.drop_last() =~= none);
    assert(two.drop_last() =~= one);
    assert(ordered::all_inserted(none, none) == none);
    ordered::lemma_position(none, a, 0);
    assert(ordered::all_inserted(none, one) =~= one);
    ordered::lemma_position(one, b, 1);
    assert(ordered::all_inserted(none, two) =~= two);
}

/// The cuts run from the one end of the segment to its other end, and
/// neighbouring cuts are apart.
#[verifier::opaque]
pub open spec fn run_along(segment: Segment, cuts: Seq<RawHit>) -> bool {
    &&& ordered::increasing(cuts)
    &&& cuts.len() >= 2
    &&& cuts[0] == outline::ends(segment)[0]
    &&& cuts.last() == outline::ends(segment)[1]
}

proof fn lemma_ends_run_along(segment: Segment)
    ensures
        run_along(segment, outline::cuts(segment, Seq::empty())),
{
    let e = outline::ends(segment);
    assert(outline::met(Seq::empty()) =~= Seq::empty());
    assert(e + outline::met(Seq::empty()) =~= e);
    assert(seq![e[0], e[1]] =~= e);
    lemma_ends_apart(segment);
    lemma_two_inserted(e[0], e[1]);
    e[1].ranked_both_ways(e[0]);
    assert(e[0].ranked(e[1]) == Rank::Before);
    reveal(run_along);
}

proof fn lemma_crossing_runs_along(segment: Segment, cuts: Seq<RawHit>, hit: RawHit)
    requires
        run_along(segment, cuts),
        on_segment(hit.t),
    ensures
        run_along(segment, ordered::inserted(cuts, hit)),
{
    reveal(run_along);
    lemma_inserted_between(segment, cuts, hit);
    ordered::lemma_inserted_increasing(cuts, hit);
}

/// The cuts with one crossing more.
pub proof fn lemma_one_more_crossing(segment: Segment, crossings: Seq<Option<RawHit>>)
    requires
        crossings.len() > 0,
    ensures
        outline::cuts(segment, crossings) == match crossings.last() {
            Some(hit) => ordered::inserted(
                outline::cuts(segment, crossings.drop_last()),
                hit,
            ),
            None => outline::cuts(segment, crossings.drop_last()),
        },
{
    let e = outline::ends(segment);
    if let Some(hit) = crossings.last() {
        let grown = e + outline::met(crossings);
        assert(grown.drop_last() =~= e + outline::met(crossings.drop_last()));
        assert(grown.last() == hit);
    }
}

/// Where all crossings lie on the segment, the cuts run from its one end to
/// its other end, and neighbouring cuts are apart.
pub proof fn law_cuts_run_from_end_to_end(segment: Segment, crossings: Seq<Option<RawHit>>)
    requires
        forall|i: int|
            0 <= i < crossings.len() ==> (#[trigger] crossings[i] matches Some(hit) ==> on_segment(
                hit.t,
            )),
    ensures
        run_along(segment, outline::cuts(segment, crossings)),
    decreases crossings.len(),
{
    if crossings.len() == 0 {
        assert(crossings =~= Seq::empty());
        lemma_ends_run_along(segment);
    } else {
        let fewer = crossings.drop_last();
        assert forall|i: int| 0 <= i < fewer.len() implies (#[trigger] fewer[i] matches Some(hit)
            ==> on_segment(hit.t)) by {
            assert(fewer[i] == crossings[i]);
        }
        law_cuts_run_from_end_to_end(segment, fewer);
        lemma_one_more_crossing(segment, crossings);
        let last = crossings[crossings.len() - 1];
        if let Some(hit) = last {
            lemma_crossing_runs_along(segment, outline::cuts(segment, fewer), hit);
        }
    }
}

} // verus!
