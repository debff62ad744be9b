//! From the points that cut the segments to the pixels they pass through.
use crate::arithmetic;
use crate::geometry::Segment;
use crate::hits::{Hit, RawHit};
use crate::inside;
use crate::ordered;
use crate::ordered::{OrderedSet, Rank, Ranked};
use crate::region_list::RegionList;
use crate::regions;
use crate::rounding;
use crate::scalar::Scalar;
use core::cmp::Ordering;
use core::ops::Range;
use itertools::Itertools;
use vstd::arithmetic::power2::*;
use vstd::prelude::*;

verus! {

/// The bit pattern of one.
pub const ONE: u32 = 0x3f80_0000;

/// A segment with what became of each grid line that it may cross: the
/// crossing, or nothing where the line misses the segment.
#[derive(Debug)]
pub struct Traced {
    pub segment: Segment,
    pub crossings: Vec<Option<RawHit>>,
}

/// The crossings alone.
pub open spec fn met(crossings: Seq<Option<RawHit>>) -> Seq<RawHit>
    decreases crossings.len(),
{
    if crossings.len() == 0 {
        Seq::empty()
    } else {
        match crossings.last() {
            Some(hit) => met(crossings.drop_last()).push(hit),
            None => met(crossings.drop_last()),
        }
    }
}

/// The two ends of a segment.
pub open spec fn ends(segment: Segment) -> Seq<RawHit> {
    seq![
        RawHit { position: segment.from, t: Scalar { bits: 0 } },
        RawHit { position: segment.to, t: Scalar { bits: ONE } },
    ]
}

/// The points that cut a segment into pieces, in order along it.
pub open spec fn cuts(segment: Segment, crossings: Seq<Option<RawHit>>) -> Seq<RawHit> {
    ordered::all_inserted(Seq::empty(), ends(segment) + met(crossings))
}

/// The whole number at or below the middle of `a` and `b`.
pub open spec fn middle_cell(a: Scalar, b: Scalar) -> int {
    if a.is_nan() || b.is_nan() || (a.is_infinite() && b.is_infinite() && a.is_negative()
        != b.is_negative()) {
        0
    } else if a.is_infinite() {
        arithmetic::saturated(arithmetic::floor_of(a.value()))
    } else if b.is_infinite() {
        arithmetic::saturated(arithmetic::floor_of(b.value()))
    } else {
        arithmetic::saturated(
            arithmetic::floor_of(arithmetic::half(rounding::round(a.value() + b.value()))),
        )
    }
}

/// From the lower of `a` and `b` to the other.
pub open spec fn span_of(a: Scalar, b: Scalar) -> Range<Scalar> {
    if a.compared(b) == Some(Ordering::Less) {
        Range { start: a, end: b }
    } else {
        Range { start: b, end: a }
    }
}

/// The hit of the piece of a segment between two neighbouring cuts.
pub open spec fn hit_between(a: RawHit, b: RawHit, segment_id: usize) -> Hit {
    Hit {
        x: middle_cell(a.position.x, b.position.x) as isize,
        y: middle_cell(a.position.y, b.position.y) as isize,
        y_range: span_of(a.position.y, b.position.y),
        segment_id,
        uncovered: false,
    }
}

/// The hits of all pieces of a segment.
pub open spec fn hits_between(cuts: Seq<RawHit>, segment_id: usize) -> Seq<Hit> {
    Seq::new(
        (if cuts.len() == 0 { 0 } else { cuts.len() - 1 }) as nat,
        |i: int| hit_between(cuts[i], cuts[i + 1], segment_id),
    )
}

/// The points that cut the segment at index `k`.
pub open spec fn cuts_at(traced: Seq<Traced>, k: int) -> Seq<RawHit> {
    cuts(traced[k].segment, traced[k].crossings@)
}

/// The pieces of the first `n` segments, each as its hit, in order along the
/// outline.
pub open spec fn pieces_of(traced: Seq<Traced>, n: int) -> Seq<Hit>
    decreases n,
{
    if n <= 0 {
        Seq::empty()
    } else {
        pieces_of(traced, n - 1) + hits_between(cuts_at(traced, n - 1), (n - 1) as usize)
    }
}

/// One hit for each pixel that has a piece: that of the earliest piece.
pub open spec fn earliest(pieces: Seq<Hit>) -> Seq<Hit> {
    ordered::all_inserted(Seq::empty(), pieces)
}

/// A piece of the segment lies in row `y`, in a pixel to the left of `px`.
pub open spec fn passes_left(traced: Traced, px: int, y: int) -> bool {
    let pieces = hits_between(cuts(traced.segment, traced.crossings@), 0);
    exists|j: int| 0 <= j < pieces.len() && is_left(#[trigger] pieces[j], px, y)
}

/// The hit lies in row `y`, in a pixel to the left of `px`.
pub open spec fn is_left(hit: Hit, px: int, y: int) -> bool {
    hit.y == y && hit.x < px
}

/// Those of the first `n` segments that pass through row `y` to the left of
/// `px`.
pub open spec fn left_of(traced: Seq<Traced>, n: int, px: int, y: int) -> Seq<Segment>
    decreases n,
{
    if n <= 0 {
        Seq::empty()
    } else {
        let before = left_of(traced, n - 1, px, y);
        if passes_left(traced[n - 1], px, y) {
            before.push(traced[n - 1].segment)
        } else {
            before
        }
    }
}

/// There are pixels between `hits[i]` and the hit before it in its row, and not
/// all of them are completely covered.
pub open spec fn leaves_gap(traced: Seq<Traced>, n: int, hits: Seq<Hit>, i: int) -> bool {
    let hit = hits[i];
    &&& regions::follows(hits, i)
    &&& regions::apart(hits[i - 1], hit)
    &&& !inside::covered(left_of(traced, n, hit.x as int, hit.y as int), hit.y as int)
}

/// `hits`, with what is known of the pixels between them.
pub open spec fn with_gaps(traced: Seq<Traced>, n: int, hits: Seq<Hit>) -> Seq<Hit> {
    Seq::new(
        hits.len(),
        |i: int|
            Hit {
                x: hits[i].x,
                y: hits[i].y,
                y_range: hits[i].y_range,
                segment_id: hits[i].segment_id,
                uncovered: leaves_gap(traced, n, hits, i),
            },
    )
}

/// The hits of the first `n` segments, one for each pixel.
pub open spec fn hits_of(traced: Seq<Traced>, n: int) -> Seq<Hit> {
    with_gaps(traced, n, earliest(pieces_of(traced, n)))
}

fn min_max(a: Scalar, b: Scalar) -> (r: Range<Scalar>)
    ensures
        r == span_of(a, b),
{
    if a < b {
        Range { start: a, end: b }
    } else {
        Range { start: b, end: a }
    }
}

pub proof fn lemma_infinite_cell(v: int)
    ensures
        v >= rounding::infinity() ==> arithmetic::saturated(arithmetic::floor_of(v)) == isize::MAX
            && arithmetic::saturated(arithmetic::floor_of(arithmetic::half(v))) == isize::MAX,
        v <= -rounding::infinity() ==> arithmetic::saturated(arithmetic::floor_of(v)) == isize::MIN
            && arithmetic::saturated(arithmetic::floor_of(arithmetic::half(v))) == isize::MIN,
{
    lemma2_to64();
    lemma_pow2_adds(128, 149);
    lemma_pow2_adds(64, 64);
    lemma_pow2_unfold(277);
    lemma_pow2_adds(127, 149);
    lemma_pow2_adds(63, 64);
    lemma2_to64_rest();
    arithmetic::lemma_floor_bounds(v, pow2(127));
    arithmetic::lemma_floor_bounds(arithmetic::half(v), pow2(127));
    assert(pow2(127) >= 0x8000_0000_0000_0000 * 0x1_0000_0000_0000_0000);
}

/// The middle of `a` and `b`, down to the next whole number.
fn middle(a: Scalar, b: Scalar) -> (r: isize)
    ensures
        r == middle_cell(a, b),
{
    let sum: Scalar = a.plus(b);
    let r: isize = sum.halved().floor();
    proof {
        sum.lemma_size_kinds();
        lemma_infinite_cell(sum.value());
    }
    r
}

fn hit_of_piece(a: &RawHit, b: &RawHit, segment_id: usize) -> (hit: Hit)
    ensures
        hit == hit_between(*a, *b, segment_id),
{
    Hit {
        x: middle(a.position.x, b.position.x),
        y: middle(a.position.y, b.position.y),
        y_range: min_max(a.position.y, b.position.y),
        segment_id,
        uncovered: false,
    }
}

/// The points that cut a segment, from its ends and its crossings.
pub fn cut(segment: Segment, crossings: &Vec<Option<RawHit>>) -> (set: OrderedSet<RawHit>)
    ensures
        set@ == cuts(segment, crossings@),
{
    let mut set: OrderedSet<RawHit> = OrderedSet::new();
    set.insert(RawHit { position: segment.from, t: Scalar { bits: 0 } });
    set.insert(RawHit { position: segment.to, t: Scalar { bits: ONE } });
    let mut i: usize = 0;
    let ghost none = Seq::<RawHit>::empty();
    proof {
        let e = ends(segment);
        assert(e.drop_last().drop_last() =~= none);
        assert(e.drop_last().last() == e[0]);
        reveal_with_fuel(ordered::all_inserted, 3);
        assert(e + met(crossings@.take(0)) =~= e);
    }
    while i < crossings.len()
        invariant
            i <= crossings@.len(),
            set@ == ordered::all_inserted(
                Seq::empty(),
                ends(segment) + met(crossings@.take(i as int)),
            ),
        decreases crossings@.len() - i,
    {
        proof {
            let next = crossings@.take(i + 1);
            assert(next.drop_last() =~= crossings@.take(i as int));
            if next.last() is Some {
                let grown = ends(segment) + met(next);
                assert(grown.drop_last() =~= ends(segment) + met(crossings@.take(i as int)));
                assert(grown.last() == next.last()->0);
            }
        }
        if let Some(hit) = crossings[i] {
            set.insert(hit);
        }
        i = i + 1;
    }
    proof {
        assert(crossings@.take(crossings@.len() as int) =~= crossings@);
    }
    set
}

/// `Itertools::tuple_windows` over pairs: each item with the one after it, in
/// order, and nothing where there are fewer than two items.
#[verifier::external_body]
fn tuple_windows(items: Vec<RawHit>) -> (windows: Vec<(RawHit, RawHit)>)
    ensures
        windows@.len() == (if items@.len() == 0 {
            0
        } else {
            items@.len() - 1
        }),
        forall|i: int|
            0 <= i < windows@.len() ==> #[trigger] windows@[i] == (items@[i], items@[i + 1]),
{
    items.into_iter().tuple_windows::<(_, _)>().collect()
}

/// The pieces of one segment.
fn pieces_along(traced: &Traced, segment_id: usize) -> (pieces: Vec<Hit>)
    ensures
        pieces@ == hits_between(cuts(traced.segment, traced.crossings@), segment_id),
{
    let set: OrderedSet<RawHit> = cut(traced.segment, &traced.crossings);
    let ghost all = hits_between(set@, segment_id);
    let windows: Vec<(RawHit, RawHit)> = tuple_windows(set.into_vec());
    let mut pieces: Vec<Hit> = Vec::new();
    let mut i: usize = 0;
    while i < windows.len()
        invariant
            i <= windows@.len(),
            windows@.len() == all.len(),
            forall|j: int|
                0 <= j < windows@.len() ==> #[trigger] all[j] == hit_between(
                    windows@[j].0,
                    windows@[j].1,
                    segment_id,
                ),
            pieces@ =~= all.take(i as int),
        decreases windows@.len() - i,
    {
        pieces.push(hit_of_piece(&windows[i].0, &windows[i].1, segment_id));
        i = i + 1;
    }
    proof {
        assert(all.take(all.len() as int) =~= all);
    }
    pieces
}

/// Adds a hit for each piece whose pixel has none.
fn add_hits(hits: &mut OrderedSet<Hit>, pieces: &Vec<Hit>)
    ensures
        final(hits)@ == ordered::all_inserted(old(hits)@, pieces@),
{
    let ghost before = hits@;
    let mut i: usize = 0;
    proof {
        assert(pieces@.take(0) =~= Seq::empty());
    }
    while i < pieces.len()
        invariant
            i <= pieces@.len(),
            hits@ == ordered::all_inserted(before, pieces@.take(i as int)),
        decreases pieces@.len() - i,
    {
        proof {
            assert(pieces@.take(i + 1).drop_last() =~= pieces@.take(i as int));
        }
        hits.insert(pieces[i].clone());
        i = i + 1;
    }
    proof {
        assert(pieces@.take(pieces@.len() as int) =~= pieces@);
    }
}

/// Whether one of the pieces lies in row `y`, in a pixel to the left of `px`.
fn is_any_left(pieces: &Vec<Hit>, px: isize, y: isize) -> (r: bool)
    ensures
        r == exists|j: int|
            0 <= j < pieces@.len() && is_left(#[trigger] pieces@[j], px as int, y as int),
{
    let mut i: usize = 0;
    while i < pieces.len()
        invariant
            i <= pieces@.len(),
            forall|j: int| 0 <= j < i ==> !is_left(#[trigger] pieces@[j], px as int, y as int),
        decreases pieces@.len() - i,
    {
        if pieces[i].y == y && pieces[i].x < px {
            assert(is_left(pieces@[i as int], px as int, y as int));
            return true;
        }
        i = i + 1;
    }
    false
}

/// `pieces` holds the pieces of each segment.
spec fn are_pieces(pieces: Seq<Vec<Hit>>, traced: Seq<Traced>, n: int) -> bool {
    &&& pieces.len() == n
    &&& n <= traced.len()
    &&& forall|k: int|
        0 <= k < n ==> (#[trigger] pieces[k])@ == hits_between(
            cuts_at(traced, k),
            k as usize,
        )
}

proof fn lemma_passes_left(pieces: Seq<Hit>, traced: Traced, id: usize, px: int, y: int)
    requires
        pieces == hits_between(cuts(traced.segment, traced.crossings@), id),
    ensures
        passes_left(traced, px, y) <==> exists|j: int|
            0 <= j < pieces.len() && is_left(#[trigger] pieces[j], px, y),
{
    let own = hits_between(cuts(traced.segment, traced.crossings@), 0);
    if passes_left(traced, px, y) {
        let j = choose|j: int| 0 <= j < own.len() && is_left(#[trigger] own[j], px, y);
        assert(is_left(pieces[j], px, y));
    }
    if exists|j: int| 0 <= j < pieces.len() && is_left(#[trigger] pieces[j], px, y) {
        let j = choose|j: int| 0 <= j < pieces.len() && is_left(#[trigger] pieces[j], px, y);
        assert(is_left(own[j], px, y));
    }
}

/// The segments that pass through row `y` to the left of `px`.
fn segments_left(
    traced: &Vec<Traced>,
    pieces: &Vec<Vec<Hit>>,
    px: isize,
    y: isize,
) -> (left: Vec<Segment>)
    requires
        are_pieces(pieces@, traced@, traced@.len() as int),
    ensures
        left@ == left_of(traced@, traced@.len() as int, px as int, y as int),
{
    let mut left: Vec<Segment> = Vec::new();
    let mut k: usize = 0;
    while k < traced.len()
        invariant
            are_pieces(pieces@, traced@, traced@.len() as int),
            k <= traced@.len(),
            left@ == left_of(traced@, k as int, px as int, y as int),
        decreases traced@.len() - k,
    {
        proof {
            lemma_passes_left(pieces@[k as int]@, traced@[k as int], k, px as int, y as int);
        }
        if is_any_left(&pieces[k], px, y) {
            left.push(traced[k].segment);
        }
        k = k + 1;
    }
    left
}

/// Whether the hit at index `i` has pixels before it, up to the last hit of the
/// row, that are not all completely covered.
fn is_gap_left(traced: &Vec<Traced>, pieces: &Vec<Vec<Hit>>, hits: &Vec<Hit>, i: usize) -> (r: bool)
    requires
        are_pieces(pieces@, traced@, traced@.len() as int),
        ordered::increasing(hits@),
        i < hits@.len(),
    ensures
        r == leaves_gap(traced@, traced@.len() as int, hits@, i as int),
{
    let hit: &Hit = &hits[i];
    if i == 0 {
        return false;
    }
    let last: &Hit = &hits[i - 1];
    if last.y != hit.y {
        return false;
    }
    assert(hits@[i - 1].ranked(hits@[i as int]) == Rank::Before);
    if !regions::is_apart(last, hit) {
        return false;
    }
    let left: Vec<Segment> = segments_left(traced, pieces, hit.x, hit.y);
    !inside::is_covered(&left, hit.y)
}

/// The hits with what is known of the pixels between them.
fn mark_gaps(traced: &Vec<Traced>, pieces: &Vec<Vec<Hit>>, hits: OrderedSet<Hit>) -> (marked:
    OrderedSet<Hit>)
    requires
        are_pieces(pieces@, traced@, traced@.len() as int),
    ensures
        marked@ == with_gaps(traced@, traced@.len() as int, hits@),
{
    let hits: Vec<Hit> = hits.into_vec();
    let ghost all = with_gaps(traced@, traced@.len() as int, hits@);
    let mut marked: Vec<Hit> = Vec::new();
    let mut i: usize = 0;
    while i < hits.len()
        invariant
            are_pieces(pieces@, traced@, traced@.len() as int),
            ordered::increasing(hits@),
            i <= hits@.len(),
            all == with_gaps(traced@, traced@.len() as int, hits@),
            marked@ =~= all.take(i as int),
        decreases hits@.len() - i,
    {
        let mut hit: Hit = hits[i].clone();
        hit.uncovered = is_gap_left(traced, pieces, &hits, i);
        assert(hit == all[i as int]);
        marked.push(hit);
        i = i + 1;
    }
    proof {
        lemma_with_gaps(traced@, traced@.len() as int, hits@);
        assert(all.take(i as int) =~= all);
    }
    OrderedSet::from_increasing(marked)
}

/// What is known of the pixels between the hits changes no order.
proof fn lemma_with_gaps(traced: Seq<Traced>, n: int, hits: Seq<Hit>)
    requires
        ordered::increasing(hits),
    ensures
        ordered::increasing(with_gaps(traced, n, hits)),
{
    let all = with_gaps(traced, n, hits);
    assert forall|i: int, j: int| 0 <= i < j < all.len() implies #[trigger] all[i].ranked(
        #[trigger] all[j],
    ) == Rank::Before by {
        assert(hits[i].ranked(hits[j]) == Rank::Before);
    }
}

/// The hits of the segments are those of the earliest pieces, in order.
pub proof fn lemma_hits_of(traced: Seq<Traced>, n: int)
    ensures
        hits_of(traced, n).len() == earliest(pieces_of(traced, n)).len(),
        forall|i: int|
            0 <= i < hits_of(traced, n).len() ==> (#[trigger] hits_of(traced, n)[i]).same_piece(
                earliest(pieces_of(traced, n))[i],
            ),
        ordered::increasing(earliest(pieces_of(traced, n))),
        ordered::increasing(hits_of(traced, n)),
{
    ordered::lemma_all_inserted(Seq::empty(), pieces_of(traced, n));
    lemma_with_gaps(traced, n, earliest(pieces_of(traced, n)));
}

/// The region list of segments whose crossings are known.
pub fn assemble(traced: Vec<Traced>) -> (list: RegionList)
    ensures
        list.segments@ == traced@.map_values(|t: Traced| t.segment),
        list.hits@ == hits_of(traced@, traced@.len() as int),
{
    let mut pieces: Vec<Vec<Hit>> = Vec::new();
    let mut hits: OrderedSet<Hit> = OrderedSet::new();
    let mut segments: Vec<Segment> = Vec::new();
    let mut i: usize = 0;
    while i < traced.len()
        invariant
            i <= traced@.len(),
            segments@ == traced@.take(i as int).map_values(|t: Traced| t.segment),
            are_pieces(pieces@, traced@, i as int),
            hits@ == earliest(pieces_of(traced@, i as int)),
        decreases traced@.len() - i,
    {
        let along: Vec<Hit> = pieces_along(&traced[i], i);
        proof {
            ordered::lemma_inserted_in_turn(
                Seq::empty(),
                pieces_of(traced@, i as int),
                along@,
            );
        }
        add_hits(&mut hits, &along);
        pieces.push(along);
        segments.push(traced[i].segment);
        proof {
            assert(segments@ =~= traced@.take(i + 1).map_values(|t: Traced| t.segment));
        }
        i = i + 1;
    }
    proof {
        assert(traced@.take(traced@.len() as int) =~= traced@);
    }
    RegionList { hits: mark_gaps(&traced, &pieces, hits), segments }
}

} // verus!
