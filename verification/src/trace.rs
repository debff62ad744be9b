//! Crossings of segments with the lines of the pixel grid.
use crate::arithmetic;
use crate::geometry::{Point, Segment};
use crate::grid_lines;
use crate::grid_lines::{Axis, Bounds};
use crate::hits::RawHit;
use crate::outline;
use crate::outline::Traced;
use crate::region_list::RegionList;
use crate::scalar::Scalar;
use vstd::prelude::*;

verus! {

/// `crossing` is what `intersection_t` and `sample` make of the line at `n`.
pub open spec fn crosses<T, P>(
    segment: Segment,
    axis: Axis,
    n: isize,
    crossing: Option<RawHit>,
    intersection_t: T,
    sample: P,
) -> bool where
    T: Fn(Segment, Axis, Scalar) -> Option<Scalar>,
    P: Fn(Segment, Scalar) -> Point,
 {
    exists|at: Scalar| #[trigger]
        arithmetic::is_number(at, n) && match crossing {
            None => call_ensures(intersection_t, (segment, axis, at), None::<Scalar>),
            Some(hit) => {
                &&& call_ensures(intersection_t, (segment, axis, at), Some(hit.t))
                &&& call_ensures(sample, (segment, hit.t), hit.position)
            },
        }
}

fn add_crossings<T, P>(
    crossings: &mut Vec<Option<RawHit>>,
    segment: Segment,
    axis: Axis,
    lines: &Vec<isize>,
    intersection_t: &T,
    sample: &P,
) where T: Fn(Segment, Axis, Scalar) -> Option<Scalar>, P: Fn(Segment, Scalar) -> Point
    requires
        forall|s: Segment, a: Axis, at: Scalar| #[trigger]
            call_requires(*intersection_t, (s, a, at)),
        forall|s: Segment, t: Scalar| #[trigger] call_requires(*sample, (s, t)),
    ensures
        final(crossings)@.len() == old(crossings)@.len() + lines@.len(),
        forall|i: int|
            0 <= i < old(crossings)@.len() ==> #[trigger] final(crossings)@[i] == old(
                crossings,
            )@[i],
        forall|i: int|
            0 <= i < lines@.len() ==> crosses(
                segment,
                axis,
                #[trigger] lines@[i],
                final(crossings)@[old(crossings)@.len() + i],
                *intersection_t,
                *sample,
            ),
{
    let ghost before = crossings@;
    let mut i: usize = 0;
    while i < lines.len()
        invariant
            i <= lines@.len(),
            crossings@.len() == before.len() + i,
            forall|s: Segment, a: Axis, at: Scalar| #[trigger]
                call_requires(*intersection_t, (s, a, at)),
            forall|s: Segment, t: Scalar| #[trigger] call_requires(*sample, (s, t)),
            forall|j: int| 0 <= j < before.len() ==> #[trigger] crossings@[j] == before[j],
            forall|j: int|
                0 <= j < i ==> crosses(
                    segment,
                    axis,
                    #[trigger] lines@[j],
                    crossings@[before.len() + j],
                    *intersection_t,
                    *sample,
                ),
        decreases lines@.len() - i,
    {
        let at: Scalar = Scalar::from_isize(lines[i]);
        assert(arithmetic::is_number(at, lines@[i as int]));
        match (*intersection_t)(segment, axis, at) {
            Some(t) => {
                let position: Point = (*sample)(segment, t);
                crossings.push(Some(RawHit { position, t }));
            },
            None => {
                crossings.push(None);
            },
        }
        i = i + 1;
    }
}

/// `traced` holds what became of the lines that meet the bounds of the
/// segment: first the horizontal ones, then the vertical ones.
pub open spec fn is_traced<B, T, P>(
    traced: Traced,
    bounding_rect: B,
    intersection_t: T,
    sample: P,
) -> bool where
    B: Fn(Segment) -> Bounds,
    T: Fn(Segment, Axis, Scalar) -> Option<Scalar>,
    P: Fn(Segment, Scalar) -> Point,
 {
    exists|bounds: Bounds, h: Seq<isize>, v: Seq<isize>|
        {
            &&& call_ensures(bounding_rect, (traced.segment,), bounds)
            &&& #[trigger] grid_lines::are_grid_lines(h, bounds, Axis::Horizontal)
            &&& #[trigger] grid_lines::are_grid_lines(v, bounds, Axis::Vertical)
            &&& traced.crossings@.len() == h.len() + v.len()
            &&& forall|i: int|
                0 <= i < h.len() ==> crosses(
                    traced.segment,
                    Axis::Horizontal,
                    #[trigger] h[i],
                    traced.crossings@[i],
                    intersection_t,
                    sample,
                )
            &&& forall|i: int|
                0 <= i < v.len() ==> crosses(
                    traced.segment,
                    Axis::Vertical,
                    #[trigger] v[i],
                    traced.crossings@[h.len() + i],
                    intersection_t,
                    sample,
                )
        }
}

/// The segments that are not level.
pub open spec fn sloped(segments: Seq<Segment>) -> Seq<Segment> {
    segments.filter(|s: Segment| !s.level())
}

/// Each segment that is not level, traced, in order.
pub open spec fn are_traced<B, T, P>(
    segments: Seq<Segment>,
    traced: Seq<Traced>,
    bounding_rect: B,
    intersection_t: T,
    sample: P,
) -> bool where
    B: Fn(Segment) -> Bounds,
    T: Fn(Segment, Axis, Scalar) -> Option<Scalar>,
    P: Fn(Segment, Scalar) -> Point,
 {
    &&& traced.map_values(|t: Traced| t.segment) == sloped(segments)
    &&& forall|i: int|
        0 <= i < traced.len() ==> is_traced(
            #[trigger] traced[i],
            bounding_rect,
            intersection_t,
            sample,
        )
}

/// Finds the crossings of every segment that is not level. `bounding_rect`
/// gives the bounds of a segment, `intersection_t` the parameter at which it
/// crosses the line of a direction at a coordinate, if it does, and `sample`
/// the point at a parameter.
pub fn trace<B, T, P>(
    segments: &Vec<Segment>,
    bounding_rect: &B,
    intersection_t: &T,
    sample: &P,
) -> (traced: Vec<Traced>) where
    B: Fn(Segment) -> Bounds,
    T: Fn(Segment, Axis, Scalar) -> Option<Scalar>,
    P: Fn(Segment, Scalar) -> Point,

    requires
        forall|s: Segment| #[trigger] call_requires(*bounding_rect, (s,)),
        forall|s: Segment, a: Axis, at: Scalar| #[trigger]
            call_requires(*intersection_t, (s, a, at)),
        forall|s: Segment, t: Scalar| #[trigger] call_requires(*sample, (s, t)),
    ensures
        are_traced(segments@, traced@, *bounding_rect, *intersection_t, *sample),
{
    let mut traced: Vec<Traced> = Vec::new();
    let mut i: usize = 0;
    proof {
        reveal(Seq::filter);
        assert(traced@.map_values(|t: Traced| t.segment) =~= sloped(segments@.take(0)));
    }
    while i < segments.len()
        invariant
            i <= segments@.len(),
            forall|s: Segment| #[trigger] call_requires(*bounding_rect, (s,)),
            forall|s: Segment, a: Axis, at: Scalar| #[trigger]
                call_requires(*intersection_t, (s, a, at)),
            forall|s: Segment, t: Scalar| #[trigger] call_requires(*sample, (s, t)),
            are_traced(
                segments@.take(i as int),
                traced@,
                *bounding_rect,
                *intersection_t,
                *sample,
            ),
        decreases segments@.len() - i,
    {
        let segment: Segment = segments[i];
        let ghost before = traced@;
        proof {
            reveal(Seq::filter);
            assert(segments@.take(i + 1).drop_last() =~= segments@.take(i as int));
        }
        if !segment.is_level() {
            let mut crossings: Vec<Option<RawHit>> = Vec::new();
            let bounds: Bounds = (*bounding_rect)(segment);
            let h: Vec<isize> = grid_lines::grid_lines(bounds, Axis::Horizontal);
            add_crossings(
                &mut crossings,
                segment,
                Axis::Horizontal,
                &h,
                intersection_t,
                sample,
            );
            let v: Vec<isize> = grid_lines::grid_lines(bounds, Axis::Vertical);
            add_crossings(&mut crossings, segment, Axis::Vertical, &v, intersection_t, sample);
            traced.push(Traced { segment, crossings });
            proof {
                assert(grid_lines::are_grid_lines(h@, bounds, Axis::Horizontal));
                assert(grid_lines::are_grid_lines(v@, bounds, Axis::Vertical));
                assert(is_traced(traced@.last(), *bounding_rect, *intersection_t, *sample));
                assert(traced@.map_values(|t: Traced| t.segment) =~= before.map_values(
                    |t: Traced| t.segment,
                ).push(segment));
            }
        }
        i = i + 1;
    }
    proof {
        assert(segments@.take(segments@.len() as int) =~= segments@);
    }
    traced
}

impl RegionList {
    /// The region list of the segments of a path (for the other arguments see
    /// `trace`).
    pub fn from<B, T, P>(
        segments: Vec<Segment>,
        bounding_rect: B,
        intersection_t: T,
        sample: P,
    ) -> (list: RegionList) where
        B: Fn(Segment) -> Bounds,
        T: Fn(Segment, Axis, Scalar) -> Option<Scalar>,
        P: Fn(Segment, Scalar) -> Point,

        requires
            forall|s: Segment| #[trigger] call_requires(bounding_rect, (s,)),
            forall|s: Segment, a: Axis, at: Scalar| #[trigger]
                call_requires(intersection_t, (s, a, at)),
            forall|s: Segment, t: Scalar| #[trigger] call_requires(sample, (s, t)),
        ensures
            list.segments@ == sloped(segments@),
            exists|traced: Seq<Traced>|
                {
                    &&& #[trigger] are_traced(
                        segments@,
                        traced,
                        bounding_rect,
                        intersection_t,
                        sample,
                    )
                    &&& list.hits@ == outline::hits_of(traced, traced.len() as int)
                },
    {
        let traced: Vec<Traced> = trace(&segments, &bounding_rect, &intersection_t, &sample);
        outline::assemble(traced)
    }
}

} // verus!
