//! The regions of the raster area, row by row.
use crate::hits;
use crate::hits::Hit;
use crate::ordered;
use crate::ordered::{OrderedSet, Ranked};
use crate::region_list::RegionList;
use crate::rounding;
use crate::scalar::Scalar;
use core::ops::Range;
use vstd::prelude::*;

verus! {

/// A part of the raster area.
#[derive(Clone, Copy, Debug, PartialEq, Eq, Structural)]
pub enum Region {
    /// A pixel that the outline passes through.
    Boundary { x: isize, y: isize },
    /// The pixels of a row from `start_x` up to, but without, `end_x`.
    Span { start_x: isize, end_x: isize, y: isize },
}

impl Region {
    /// The pixel (x, y) belongs to the region.
    pub open spec fn covers(self, px: int, py: int) -> bool {
        match self {
            Region::Boundary { x, y } => px == x && py == y,
            Region::Span { start_x, end_x, y } => start_x <= px < end_x && py == y,
        }
    }
}

/// `range` holds `v`.
pub open spec fn within(range: Range<Scalar>, v: Scalar) -> bool {
    &&& !range.start.is_nan() && !range.end.is_nan() && !v.is_nan()
    &&& range.start.value() <= v.value() < range.end.value()
}

/// The value of `v - EPSILON`.
pub open spec fn lowered(v: Scalar) -> int {
    if v.is_infinite() {
        v.value()
    } else {
        rounding::round(v.value() - hits::epsilon())
    }
}

/// `range` holds `v - EPSILON`.
pub open spec fn within_lowered(range: Range<Scalar>, v: Scalar) -> bool {
    &&& !range.start.is_nan() && !range.end.is_nan() && !v.is_nan()
    &&& range.start.value() <= lowered(v) < range.end.value()
}

/// The height of one hit begins or ends within that of the other.
pub open spec fn overlap(last: Hit, hit: Hit) -> bool {
    ||| within(last.y_range, hit.y_range.start)
    ||| within_lowered(last.y_range, hit.y_range.end)
    ||| within(hit.y_range, last.y_range.start)
    ||| within_lowered(hit.y_range, last.y_range.end)
}

/// At least one pixel lies between the two.
pub open spec fn apart(last: Hit, hit: Hit) -> bool {
    last.x - hit.x > 1 || hit.x - last.x > 1
}

/// `hits[i]` has a hit before it in its row.
pub open spec fn follows(hits: Seq<Hit>, i: int) -> bool {
    0 < i && hits[i - 1].y == hits[i].y
}

/// At `hits[i]` the row meets an edge that it was not on before.
pub open spec fn new_edge(hits: Seq<Hit>, i: int) -> bool {
    follows(hits, i) ==> {
        &&& hits[i - 1].segment_id != hits[i].segment_id
        &&& apart(hits[i - 1], hits[i]) || overlap(hits[i - 1], hits[i])
    }
}

/// The edges that the row of `hits[i]` has met, that at `hits[i]` included.
pub open spec fn winding_number(hits: Seq<Hit>, i: int) -> nat
    decreases i,
{
    let before = if follows(hits, i) {
        winding_number(hits, i - 1)
    } else {
        0
    };
    if new_edge(hits, i) {
        before + 1
    } else {
        before
    }
}

/// There are pixels between `hits[i]` and the hit before it, the row has met an
/// odd number of edges before them, and nothing is known to keep them from being
/// completely covered.
pub open spec fn closes_span(hits: Seq<Hit>, i: int) -> bool {
    &&& follows(hits, i)
    &&& new_edge(hits, i)
    &&& apart(hits[i - 1], hits[i])
    &&& winding_number(hits, i) % 2 == 0
    &&& !hits[i].uncovered
}

/// The regions that `hits[i]` gives rise to.
pub open spec fn regions_at(hits: Seq<Hit>, i: int) -> Seq<Region> {
    let hit = hits[i];
    let boundary = seq![Region::Boundary { x: hit.x, y: hit.y }];
    if closes_span(hits, i) {
        boundary.push(
            Region::Span { start_x: (hits[i - 1].x + 1) as isize, end_x: hit.x, y: hit.y },
        )
    } else {
        boundary
    }
}

/// The regions that the first `n` hits give rise to.
pub open spec fn regions_of(hits: Seq<Hit>, n: int) -> Seq<Region>
    decreases n,
{
    if n <= 0 {
        Seq::empty()
    } else {
        regions_of(hits, n - 1) + regions_at(hits, n - 1)
    }
}

fn is_within(range: &Range<Scalar>, v: Scalar) -> (b: bool)
    ensures
        b == within(*range, v),
{
    range.contains(&v)
}

fn is_within_lowered(range: &Range<Scalar>, v: Scalar) -> (b: bool)
    ensures
        b == within_lowered(*range, v),
{
    proof {
        hits::lemma_epsilon();
    }
    let e: Scalar = v.minus(Scalar { bits: hits::EPSILON });
    is_within(range, e)
}

fn is_overlap(last: &Hit, hit: &Hit) -> (b: bool)
    ensures
        b == overlap(*last, *hit),
{
    is_within(&last.y_range, hit.y_range.start) || is_within_lowered(
        &last.y_range,
        hit.y_range.end,
    ) || is_within(&hit.y_range, last.y_range.start) || is_within_lowered(
        &hit.y_range,
        last.y_range.end,
    )
}

pub(crate) fn is_apart(last: &Hit, hit: &Hit) -> (b: bool)
    requires
        last.x < hit.x,
    ensures
        b == apart(*last, *hit),
{
    last.x < hit.x - 1
}

impl RegionList {
    /// The regions of the raster area that `hits` outline: each hit is a boundary
    /// pixel, followed by the span that ends at it, if one does. However far two
    /// hits lie from each other, their distance is taken exactly.
    pub fn regions(hits: OrderedSet<Hit>) -> (regions: Vec<Region>)
        ensures
            regions@ == regions_of(hits@, hits@.len() as int),
            ordered::increasing(hits@),
    {
        let hits: Vec<Hit> = hits.into_vec();
        let mut out: Vec<Region> = Vec::new();
        let mut winding: usize = 0;
        let mut i: usize = 0;
        while i < hits.len()
            invariant
                ordered::increasing(hits@),
                i <= hits@.len(),
                out@ == regions_of(hits@, i as int),
                winding <= i,
                i > 0 ==> winding == winding_number(hits@, i - 1),
            decreases hits@.len() - i,
        {
            let hit: &Hit = &hits[i];
            let mut in_row: bool = false;
            if i > 0 {
                in_row = hits[i - 1].y == hit.y;
            }
            if !in_row {
                winding = 1;
                out.push(Region::Boundary { x: hit.x, y: hit.y });
            } else {
                let last: &Hit = &hits[i - 1];
                assert(hits@[i - 1].ranked(hits@[i as int]) == ordered::Rank::Before);
                let is_gap: bool = is_apart(last, hit);
                let is_new_edge: bool = last.segment_id != hit.segment_id && (is_gap || is_overlap(
                    last,
                    hit,
                ));
                if is_new_edge {
                    winding = winding + 1;
                }
                out.push(Region::Boundary { x: hit.x, y: hit.y });
                if is_new_edge && is_gap && winding % 2 == 0 && !hit.uncovered {
                    out.push(Region::Span { start_x: last.x + 1, end_x: hit.x, y: hit.y });
                }
            }
            assert(out@ =~= regions_of(hits@, i as int) + regions_at(hits@, i as int));
            i = i + 1;
        }
        out
    }
}

} // verus!
