//! What holds of traced segments, and of the region lists made from them.
use crate::arithmetic;
use crate::geometry::{Point, Segment};
use crate::grid_lines;
use crate::grid_lines::{Axis, Bounds};
use crate::hits::{Hit, RawHit};
use crate::outline;
use crate::outline::Traced;
use crate::outline_laws;
use crate::scalar::Scalar;
use crate::trace;
use vstd::prelude::*;

verus! {

/// Each of the three gives one result for the same arguments.
pub open spec fn repeatable<B, T, P>(bounding_rect: B, intersection_t: T, sample: P) -> bool where
    B: Fn(Segment) -> Bounds,
    T: Fn(Segment, Axis, Scalar) -> Option<Scalar>,
    P: Fn(Segment, Scalar) -> Point,
 {
    &&& forall|s: Segment, p: Bounds, q: Bounds| #[trigger]
        call_ensures(bounding_rect, (s,), p) && #[trigger] call_ensures(bounding_rect, (s,), q)
            ==> p == q
    &&& forall|s: Segment, a: Axis, at: Scalar, p: Option<Scalar>, q: Option<Scalar>| #[trigger]
        call_ensures(intersection_t, (s, a, at), p) && #[trigger] call_ensures(
            intersection_t,
            (s, a, at),
            q,
        ) ==> p == q
    &&& forall|s: Segment, t: Scalar, p: Point, q: Point| #[trigger]
        call_ensures(sample, (s, t), p) && #[trigger] call_ensures(sample, (s, t), q) ==> p == q
}

/// The two are traces of the same segment with the same crossings.
pub open spec fn same_trace(a: Traced, b: Traced) -> bool {
    a.segment == b.segment && a.crossings@ == b.crossings@
}

/// The same traces, one by one.
pub open spec fn same_traces(a: Seq<Traced>, b: Seq<Traced>) -> bool {
    &&& a.len() == b.len()
    &&& forall|i: int| 0 <= i < a.len() ==> same_trace(#[trigger] a[i], b[i])
}

proof fn lemma_crosses_once<T, P>(
    segment: Segment,
    axis: Axis,
    n: isize,
    p: Option<RawHit>,
    q: Option<RawHit>,
    intersection_t: T,
    sample: P,
) where
    T: Fn(Segment, Axis, Scalar) -> Option<Scalar>,
    P: Fn(Segment, Scalar) -> Point,

    requires
        forall|s: Segment, a: Axis, at: Scalar, p: Option<Scalar>, q: Option<Scalar>| #[trigger]
            call_ensures(intersection_t, (s, a, at), p) && #[trigger] call_ensures(
                intersection_t,
                (s, a, at),
                q,
            ) ==> p == q,
        forall|s: Segment, t: Scalar, p: Point, q: Point| #[trigger]
            call_ensures(sample, (s, t), p) && #[trigger] call_ensures(sample, (s, t), q) ==> p
                == q,
        trace::crosses(segment, axis, n, p, intersection_t, sample),
        trace::crosses(segment, axis, n, q, intersection_t, sample),
    ensures
        p == q,
{
    let a = choose|at: Scalar| #[trigger]
        arithmetic::is_number(at, n) && match p {
            None => call_ensures(intersection_t, (segment, axis, at), None::<Scalar>),
            Some(hit) => {
                &&& call_ensures(intersection_t, (segment, axis, at), Some(hit.t))
                &&& call_ensures(sample, (segment, hit.t), hit.position)
            },
        };
    let b = choose|at: Scalar| #[trigger]
        arithmetic::is_number(at, n) && match q {
            None => call_ensures(intersection_t, (segment, axis, at), None::<Scalar>),
            Some(hit) => {
                &&& call_ensures(intersection_t, (segment, axis, at), Some(hit.t))
                &&& call_ensures(sample, (segment, hit.t), hit.position)
            },
        };
    arithmetic::lemma_is_number_unique(a, b, n);
    let t = match p {
        None => None::<Scalar>,
        Some(hit) => Some(hit.t),
    };
    let u = match q {
        None => None::<Scalar>,
        Some(hit) => Some(hit.t),
    };
    assert(call_ensures(intersection_t, (segment, axis, a), t));
    assert(call_ensures(intersection_t, (segment, axis, a), u));
    assert(t == u);
}

/// Increasing numbers are given by which ones they are.
proof fn lemma_increasing_numbers(a: Seq<isize>, b: Seq<isize>)
    requires
        forall|i: int, j: int| 0 <= i < j < a.len() ==> a[i] < a[j],
        forall|i: int, j: int| 0 <= i < j < b.len() ==> b[i] < b[j],
        forall|n: isize| #[trigger] a.contains(n) <==> b.contains(n),
    ensures
        a == b,
    decreases a.len(),
{
    if a.len() == 0 {
        if b.len() > 0 {
            assert(b.contains(b[0]));
            assert(a.contains(b[0]));
        }
        assert(a =~= b);
    } else {
        assert(a.contains(a.last()));
        assert(b.len() > 0);
        assert(b.contains(b.last()));
        assert(a.contains(b.last()));
        assert(a.last() == b.last());
        let (c, d) = (a.drop_last(), b.drop_last());
        assert forall|n: isize| #[trigger] c.contains(n) <==> d.contains(n) by {
            if c.contains(n) {
                let i = choose|i: int| 0 <= i < c.len() && c[i] == n;
                assert(a[i] == n);
                assert(a.contains(n));
                assert(b.contains(n));
                let j = choose|j: int| 0 <= j < b.len() && b[j] == n;
                assert(d[j] == n);
            }
            if d.contains(n) {
                let i = choose|i: int| 0 <= i < d.len() && d[i] == n;
                assert(b[i] == n);
                assert(a.contains(n));
                let j = choose|j: int| 0 <= j < a.len() && a[j] == n;
                assert(c[j] == n);
            }
        }
        lemma_increasing_numbers(c, d);
        assert(a =~= c.push(a.last()));
        assert(b =~= d.push(b.last()));
    }
}

proof fn lemma_grid_lines_unique(a: Seq<isize>, b: Seq<isize>, bounds: Bounds, axis: Axis)
    requires
        grid_lines::are_grid_lines(a, bounds, axis),
        grid_lines::are_grid_lines(b, bounds, axis),
    ensures
        a == b,
{
    assert forall|n: isize| #[trigger] a.contains(n) <==> b.contains(n) by {
        assert(b.contains(n) <==> grid_lines::meets(n as int, bounds, axis));
    }
    lemma_increasing_numbers(a, b);
}

/// Where nothing is left to chance, a segment has one trace.
pub proof fn law_trace_is_repeatable<B, T, P>(
    a: Traced,
    b: Traced,
    bounding_rect: B,
    intersection_t: T,
    sample: P,
) where
    B: Fn(Segment) -> Bounds,
    T: Fn(Segment, Axis, Scalar) -> Option<Scalar>,
    P: Fn(Segment, Scalar) -> Point,

    requires
        repeatable(bounding_rect, intersection_t, sample),
        trace::is_traced(a, bounding_rect, intersection_t, sample),
        trace::is_traced(b, bounding_rect, intersection_t, sample),
        a.segment == b.segment,
    ensures
        same_trace(a, b),
{
    let s = a.segment;
    let (p, h, v) = choose|bounds: Bounds, h: Seq<isize>, v: Seq<isize>|
        {
            &&& call_ensures(bounding_rect, (a.segment,), bounds)
            &&& #[trigger] grid_lines::are_grid_lines(h, bounds, Axis::Horizontal)
            &&& #[trigger] grid_lines::are_grid_lines(v, bounds, Axis::Vertical)
            &&& a.crossings@.len() == h.len() + v.len()
            &&& forall|i: int|
                0 <= i < h.len() ==> trace::crosses(
                    a.segment,
                    Axis::Horizontal,
                    #[trigger] h[i],
                    a.crossings@[i],
                    intersection_t,
                    sample,
                )
            &&& forall|i: int|
                0 <= i < v.len() ==> trace::crosses(
                    a.segment,
                    Axis::Vertical,
                    #[trigger] v[i],
                    a.crossings@[h.len() + i],
                    intersection_t,
                    sample,
                )
        };
    let (q, k, w) = choose|bounds: Bounds, h: Seq<isize>, v: Seq<isize>|
        {
            &&& call_ensures(bounding_rect, (b.segment,), bounds)
            &&& #[trigger] grid_lines::are_grid_lines(h, bounds, Axis::Horizontal)
            &&& #[trigger] grid_lines::are_grid_lines(v, bounds, Axis::Vertical)
            &&& b.crossings@.len() == h.len() + v.len()
            &&& forall|i: int|
                0 <= i < h.len() ==> trace::crosses(
                    b.segment,
                    Axis::Horizontal,
                    #[trigger] h[i],
                    b.crossings@[i],
                    intersection_t,
                    sample,
                )
            &&& forall|i: int|
                0 <= i < v.len() ==> trace::crosses(
                    b.segment,
                    Axis::Vertical,
                    #[trigger] v[i],
                    b.crossings@[h.len() + i],
                    intersection_t,
                    sample,
                )
        };
    assert(p == q);
    lemma_grid_lines_unique(h, k, p, Axis::Horizontal);
    lemma_grid_lines_unique(v, w, p, Axis::Vertical);
    assert forall|i: int| 0 <= i < a.crossings@.len() implies #[trigger] a.crossings@[i]
        == b.crossings@[i] by {
        let (c, d) = (a.crossings@[i], b.crossings@[i]);
        if i < h.len() {
            assert(trace::crosses(s, Axis::Horizontal, h[i], c, intersection_t, sample));
            assert(trace::crosses(s, Axis::Horizontal, k[i], d, intersection_t, sample));
            lemma_crosses_once(s, Axis::Horizontal, h[i], c, d, intersection_t, sample);
        } else {
            let j = i - h.len();
            assert(trace::crosses(s, Axis::Vertical, v[j], c, intersection_t, sample));
            assert(trace::crosses(s, Axis::Vertical, w[j], d, intersection_t, sample));
            lemma_crosses_once(s, Axis::Vertical, v[j], c, d, intersection_t, sample);
        }
    }
    assert(a.crossings@ =~= b.crossings@);
}

proof fn lemma_same_pieces(a: Seq<Traced>, b: Seq<Traced>, n: int)
    requires
        same_traces(a, b),
        0 <= n <= a.len(),
    ensures
        outline::pieces_of(a, n) == outline::pieces_of(b, n),
        forall|px: int, y: int| #[trigger]
            outline::left_of(a, n, px, y) == outline::left_of(b, n, px, y),
    decreases n,
{
    if n > 0 {
        lemma_same_pieces(a, b, n - 1);
        assert(same_trace(a[n - 1], b[n - 1]));
        assert forall|px: int, y: int| #[trigger]
            outline::left_of(a, n, px, y) == outline::left_of(b, n, px, y) by {
            assert(outline::left_of(a, n - 1, px, y) == outline::left_of(b, n - 1, px, y));
        }
    }
}

proof fn lemma_same_hits(a: Seq<Traced>, b: Seq<Traced>, n: int)
    requires
        same_traces(a, b),
        0 <= n <= a.len(),
    ensures
        outline::hits_of(a, n) == outline::hits_of(b, n),
{
    lemma_same_pieces(a, b, n);
    let hits = outline::earliest(outline::pieces_of(a, n));
    assert forall|i: int| 0 <= i < hits.len() implies #[trigger] outline::hits_of(a, n)[i]
        == outline::hits_of(b, n)[i] by {
        assert(outline::left_of(a, n, hits[i].x as int, hits[i].y as int) == outline::left_of(
            b,
            n,
            hits[i].x as int,
            hits[i].y as int,
        ));
        assert(outline::leaves_gap(a, n, hits, i) == outline::leaves_gap(b, n, hits, i));
    }
    assert(outline::hits_of(a, n) =~= outline::hits_of(b, n));
}

/// Where nothing is left to chance, the segments that are not level decide the
/// region list: the same ones give the same segments and the same hits.
pub proof fn law_lists_are_repeatable<B, T, P>(
    s: Seq<Segment>,
    r: Seq<Segment>,
    a: Seq<Traced>,
    b: Seq<Traced>,
    bounding_rect: B,
    intersection_t: T,
    sample: P,
) where
    B: Fn(Segment) -> Bounds,
    T: Fn(Segment, Axis, Scalar) -> Option<Scalar>,
    P: Fn(Segment, Scalar) -> Point,

    requires
        repeatable(bounding_rect, intersection_t, sample),
        trace::are_traced(s, a, bounding_rect, intersection_t, sample),
        trace::are_traced(r, b, bounding_rect, intersection_t, sample),
        trace::sloped(s) == trace::sloped(r),
    ensures
        same_traces(a, b),
        outline::hits_of(a, a.len() as int) == outline::hits_of(b, b.len() as int),
{
    let f = |t: Traced| t.segment;
    assert(a.map_values(f).len() == b.map_values(f).len());
    assert forall|i: int| 0 <= i < a.len() implies same_trace(#[trigger] a[i], b[i]) by {
        assert(a.map_values(f)[i] == b.map_values(f)[i]);
        law_trace_is_repeatable(a[i], b[i], bounding_rect, intersection_t, sample);
    }
    lemma_same_hits(a, b, a.len() as int);
}

proof fn lemma_sloped_joined(a: Seq<Segment>, b: Seq<Segment>)
    ensures
        trace::sloped(a + b) == trace::sloped(a) + trace::sloped(b),
{
    Seq::filter_distributes_over_add(a, b, |s: Segment| !s.level());
}

/// Level segments play no part: without them the traces, and so the region
/// list, are the same.
pub proof fn law_level_segments_play_no_part<B, T, P>(
    segments: Seq<Segment>,
    traced: Seq<Traced>,
    bounding_rect: B,
    intersection_t: T,
    sample: P,
) where
    B: Fn(Segment) -> Bounds,
    T: Fn(Segment, Axis, Scalar) -> Option<Scalar>,
    P: Fn(Segment, Scalar) -> Point,

    ensures
        trace::sloped(trace::sloped(segments)) == trace::sloped(segments),
        trace::are_traced(segments, traced, bounding_rect, intersection_t, sample)
            == trace::are_traced(
            trace::sloped(segments),
            traced,
            bounding_rect,
            intersection_t,
            sample,
        ),
{
    lemma_sloped_twice(segments);
}

proof fn lemma_sloped_twice(segments: Seq<Segment>)
    ensures
        trace::sloped(trace::sloped(segments)) == trace::sloped(segments),
    decreases segments.len(),
{
    reveal(Seq::filter);
    if segments.len() > 0 {
        lemma_sloped_twice(segments.drop_last());
        if !segments.last().level() {
            assert(trace::sloped(segments).drop_last() =~= trace::sloped(segments.drop_last()));
        }
    }
}

/// A level segment is dropped, wherever it stands.
pub proof fn law_level_segment_is_dropped(a: Seq<Segment>, level: Segment, b: Seq<Segment>)
    requires
        level.level(),
    ensures
        trace::sloped(a + seq![level] + b) == trace::sloped(a + b),
        trace::sloped(seq![level]) == Seq::<Segment>::empty(),
{
    reveal(Seq::filter);
    let one = seq![level];
    assert(one.drop_last() =~= Seq::empty());
    assert(trace::sloped(Seq::empty()) =~= Seq::empty());
    assert(trace::sloped(one) =~= Seq::empty());
    lemma_sloped_joined(a, b);
    lemma_sloped_joined(a, one);
    lemma_sloped_joined(a + one, b);
    assert(trace::sloped(a) + trace::sloped(one) =~= trace::sloped(a));
}

/// Where nothing is left to chance, a level segment changes nothing of the
/// region list, wherever it stands.
pub proof fn law_level_segment_changes_nothing<B, T, P>(
    a: Seq<Segment>,
    level: Segment,
    b: Seq<Segment>,
    with: Seq<Traced>,
    without: Seq<Traced>,
    bounding_rect: B,
    intersection_t: T,
    sample: P,
) where
    B: Fn(Segment) -> Bounds,
    T: Fn(Segment, Axis, Scalar) -> Option<Scalar>,
    P: Fn(Segment, Scalar) -> Point,

    requires
        level.level(),
        repeatable(bounding_rect, intersection_t, sample),
        trace::are_traced(
            a + seq![level] + b,
            with,
            bounding_rect,
            intersection_t,
            sample,
        ),
        trace::are_traced(a + b, without, bounding_rect, intersection_t, sample),
    ensures
        trace::sloped(a + seq![level] + b) == trace::sloped(a + b),
        same_traces(with, without),
        outline::hits_of(with, with.len() as int) == outline::hits_of(
            without,
            without.len() as int,
        ),
{
    law_level_segment_is_dropped(a, level, b);
    law_lists_are_repeatable(
        a + seq![level] + b,
        a + b,
        with,
        without,
        bounding_rect,
        intersection_t,
        sample,
    );
}

/// A level segment by itself gives no segments and no hits.
pub proof fn law_level_segment_alone<B, T, P>(
    level: Segment,
    traced: Seq<Traced>,
    bounding_rect: B,
    intersection_t: T,
    sample: P,
) where
    B: Fn(Segment) -> Bounds,
    T: Fn(Segment, Axis, Scalar) -> Option<Scalar>,
    P: Fn(Segment, Scalar) -> Point,

    requires
        level.level(),
        trace::are_traced(seq![level], traced, bounding_rect, intersection_t, sample),
    ensures
        trace::sloped(seq![level]) == Seq::<Segment>::empty(),
        outline::hits_of(traced, traced.len() as int) == Seq::<Hit>::empty(),
{
    let none = Seq::<Segment>::empty();
    law_level_segment_is_dropped(none, level, none);
    assert(traced.map_values(|t: Traced| t.segment).len() == 0);
    assert(outline::pieces_of(traced, 0) =~= Seq::empty());
    assert(outline::hits_of(traced, 0) =~= Seq::empty());
}

proof fn lemma_joined_traces<B, T, P>(
    s: Seq<Segment>,
    r: Seq<Segment>,
    a: Seq<Traced>,
    b: Seq<Traced>,
    bounding_rect: B,
    intersection_t: T,
    sample: P,
) where
    B: Fn(Segment) -> Bounds,
    T: Fn(Segment, Axis, Scalar) -> Option<Scalar>,
    P: Fn(Segment, Scalar) -> Point,

    requires
        trace::are_traced(s, a, bounding_rect, intersection_t, sample),
        trace::are_traced(r, b, bounding_rect, intersection_t, sample),
    ensures
        trace::are_traced(s + r, a + b, bounding_rect, intersection_t, sample),
{
    let f = |t: Traced| t.segment;
    lemma_sloped_joined(s, r);
    assert((a + b).map_values(f) =~= a.map_values(f) + b.map_values(f));
    assert forall|i: int| 0 <= i < (a + b).len() implies trace::is_traced(
        #[trigger] (a + b)[i],
        bounding_rect,
        intersection_t,
        sample,
    ) by {
        if i < a.len() {
            assert((a + b)[i] == a[i]);
        } else {
            assert((a + b)[i] == b[i - a.len()]);
        }
    }
}

/// Where nothing is left to chance, the region list of two paths together hits
/// the pixels that the one or the other hits, and it keeps every hit of the
/// first.
pub proof fn law_joined_lists<B, T, P>(
    s: Seq<Segment>,
    r: Seq<Segment>,
    a: Seq<Traced>,
    b: Seq<Traced>,
    both: Seq<Traced>,
    bounding_rect: B,
    intersection_t: T,
    sample: P,
) where
    B: Fn(Segment) -> Bounds,
    T: Fn(Segment, Axis, Scalar) -> Option<Scalar>,
    P: Fn(Segment, Scalar) -> Point,

    requires
        repeatable(bounding_rect, intersection_t, sample),
        trace::are_traced(s, a, bounding_rect, intersection_t, sample),
        trace::are_traced(r, b, bounding_rect, intersection_t, sample),
        trace::are_traced(s + r, both, bounding_rect, intersection_t, sample),
    ensures
        outline_laws::pixels_of(both) == outline_laws::pixels_of(a).union(
            outline_laws::pixels_of(b),
        ),
        forall|hit: Hit| #[trigger]
            outline::hits_of(a, a.len() as int).contains(hit) ==> exists|kept: Hit| #[trigger]
                outline::hits_of(both, both.len() as int).contains(kept) && kept.same_piece(hit),
{
    lemma_joined_traces(s, r, a, b, bounding_rect, intersection_t, sample);
    law_lists_are_repeatable(
        s + r,
        s + r,
        both,
        a + b,
        bounding_rect,
        intersection_t,
        sample,
    );
    outline_laws::law_joined_outlines(a, b);
    assert forall|hit: Hit| #[trigger]
        outline::hits_of(a, a.len() as int).contains(hit) implies exists|kept: Hit| #[trigger]
        outline::hits_of(both, both.len() as int).contains(kept) && kept.same_piece(hit) by {
        outline_laws::law_first_hit_stays(a, b, hit);
    }
}

proof fn lemma_sloped_contains(segments: Seq<Segment>, s: Segment)
    ensures
        trace::sloped(segments).contains(s) <==> segments.contains(s) && !s.level(),
    decreases segments.len(),
{
    reveal(Seq::filter);
    if segments.len() > 0 {
        let fewer = segments.drop_last();
        let (a, b) = (trace::sloped(fewer), trace::sloped(segments));
        lemma_sloped_contains(fewer, s);
        if segments.contains(s) {
            let i = choose|i: int| 0 <= i < segments.len() && segments[i] == s;
            if i < fewer.len() {
                assert(fewer[i] == s);
            }
        }
        if fewer.contains(s) {
            let i = choose|i: int| 0 <= i < fewer.len() && fewer[i] == s;
            assert(segments[i] == s);
        }
        if !segments.last().level() {
            assert(b == a.push(segments.last()));
            assert(b[b.len() - 1] == segments.last());
            assert(segments[segments.len() - 1] == segments.last());
            if a.contains(s) {
                let i = choose|i: int| 0 <= i < a.len() && a[i] == s;
                assert(b[i] == s);
            }
            if b.contains(s) {
                let i = choose|i: int| 0 <= i < b.len() && b[i] == s;
                if i < a.len() {
                    assert(a[i] == s);
                }
            }
        }
    }
}

proof fn lemma_pixels_among<B, T, P>(
    s: Seq<Segment>,
    r: Seq<Segment>,
    a: Seq<Traced>,
    b: Seq<Traced>,
    bounding_rect: B,
    intersection_t: T,
    sample: P,
    x: int,
    y: int,
) where
    B: Fn(Segment) -> Bounds,
    T: Fn(Segment, Axis, Scalar) -> Option<Scalar>,
    P: Fn(Segment, Scalar) -> Point,

    requires
        repeatable(bounding_rect, intersection_t, sample),
        trace::are_traced(s, a, bounding_rect, intersection_t, sample),
        trace::are_traced(r, b, bounding_rect, intersection_t, sample),
        forall|segment: Segment| #[trigger] s.contains(segment) ==> r.contains(segment),
        outline_laws::some_passes(a, x, y),
    ensures
        outline_laws::some_passes(b, x, y),
{
    let f = |t: Traced| t.segment;
    let k = choose|k: int| 0 <= k < a.len() && outline_laws::passes(#[trigger] a[k], x, y);
    let segment = a[k].segment;
    assert(a.map_values(f)[k] == segment);
    assert(trace::sloped(s).contains(segment));
    lemma_sloped_contains(s, segment);
    lemma_sloped_contains(r, segment);
    assert(trace::sloped(r).contains(segment));
    let l = choose|l: int| 0 <= l < b.map_values(f).len() && b.map_values(f)[l] == segment;
    assert(b[l].segment == segment);
    law_trace_is_repeatable(a[k], b[l], bounding_rect, intersection_t, sample);
    assert(outline_laws::passes(b[l], x, y)) by {
        reveal(outline_laws::passes);
    }
}

/// Where nothing is left to chance, the pixels that a region list hits do not
/// depend on the order of the segments.
pub proof fn law_order_of_a_path<B, T, P>(
    s: Seq<Segment>,
    r: Seq<Segment>,
    a: Seq<Traced>,
    b: Seq<Traced>,
    bounding_rect: B,
    intersection_t: T,
    sample: P,
) where
    B: Fn(Segment) -> Bounds,
    T: Fn(Segment, Axis, Scalar) -> Option<Scalar>,
    P: Fn(Segment, Scalar) -> Point,

    requires
        repeatable(bounding_rect, intersection_t, sample),
        trace::are_traced(s, a, bounding_rect, intersection_t, sample),
        trace::are_traced(r, b, bounding_rect, intersection_t, sample),
        s.to_multiset() == r.to_multiset(),
    ensures
        outline_laws::pixels_of(a) == outline_laws::pixels_of(b),
{
    s.to_multiset_ensures();
    r.to_multiset_ensures();
    assert forall|segment: Segment| s.contains(segment) <==> r.contains(segment) by {
        assert(s.contains(segment) <==> s.to_multiset().count(segment) > 0);
        assert(r.contains(segment) <==> r.to_multiset().count(segment) > 0);
    }
    assert forall|p: (int, int)|
        outline_laws::pixels_of(a).contains(p) <==> outline_laws::pixels_of(b).contains(p) by {
        outline_laws::law_hit_pixels(a, p.0, p.1);
        outline_laws::law_hit_pixels(b, p.0, p.1);
        if outline_laws::some_passes(a, p.0, p.1) {
            lemma_pixels_among(s, r, a, b, bounding_rect, intersection_t, sample, p.0, p.1);
        }
        if outline_laws::some_passes(b, p.0, p.1) {
            lemma_pixels_among(r, s, b, a, bounding_rect, intersection_t, sample, p.0, p.1);
        }
    }
    assert(outline_laws::pixels_of(a) =~= outline_laws::pixels_of(b));
}

} // verus!
