//! What holds of the regions of a raster area and of the commands that shade
//! them.
use crate::arithmetic;
use crate::geometry::Point;
use crate::hits::Hit;
use crate::ordered;
use crate::ordered::Ranked;
use crate::region_list;
use crate::region_list::ShadeCommand;
use crate::regions;
use crate::regions::Region;
use crate::scalar::Scalar;
use vstd::prelude::*;

verus! {

/// The boundary pixel of a hit.
pub open spec fn boundary(hit: Hit) -> Region {
    Region::Boundary { x: hit.x, y: hit.y }
}

/// Each hit is a boundary region, once and in order, and there are no other
/// boundary regions.
pub proof fn law_boundaries_are_the_hits(hits: Seq<Hit>, n: int)
    requires
        0 <= n <= hits.len(),
    ensures
        regions::regions_of(hits, n).filter(|r: Region| r is Boundary) == hits.take(n).map_values(
            |h: Hit| boundary(h),
        ),
    decreases n,
{
    reveal(Seq::filter);
    let f = |r: Region| r is Boundary;
    let m = |h: Hit| boundary(h);
    if n > 0 {
        law_boundaries_are_the_hits(hits, n - 1);
        let a = regions::regions_of(hits, n - 1);
        let b = regions::regions_at(hits, n - 1);
        Seq::filter_distributes_over_add(a, b, f);
        let first = seq![boundary(hits[n - 1])];
        assert(first.drop_last() =~= Seq::empty());
        assert(first.filter(f) =~= first);
        if regions::closes_span(hits, n - 1) {
            assert(b.drop_last() =~= first);
        }
        assert(b.filter(f) =~= first);
        assert(hits.take(n).map_values(m) =~= hits.take(n - 1).map_values(m) + first);
    } else {
        assert(hits.take(n).map_values(m) =~= Seq::empty());
    }
}

/// (x, y) is the pixel of `hit` or comes before it, by row and then column.
pub open spec fn up_to(hit: Hit, x: int, y: int) -> bool {
    y < hit.y || (y == hit.y && x <= hit.x)
}

proof fn lemma_covered_up_to(hits: Seq<Hit>, n: int)
    requires
        ordered::increasing(hits),
        0 < n <= hits.len(),
    ensures
        forall|i: int, x: int, y: int|
            0 <= i < regions::regions_of(hits, n).len() && #[trigger] regions::regions_of(
                hits,
                n,
            )[i].covers(x, y) ==> up_to(hits[n - 1], x, y),
    decreases n,
{
    let all = regions::regions_of(hits, n);
    let a = regions::regions_of(hits, n - 1);
    if n > 1 {
        lemma_covered_up_to(hits, n - 1);
        assert(hits[n - 2].ranked(hits[n - 1]) == ordered::Rank::Before);
    }
    assert forall|i: int, x: int, y: int|
        0 <= i < all.len() && #[trigger] all[i].covers(x, y) implies up_to(hits[n - 1], x, y) by {
        if i < a.len() {
            assert(all[i] == a[i]);
            assert(up_to(hits[n - 2], x, y));
        }
    }
}

/// No pixel belongs to two regions.
pub proof fn law_regions_are_disjoint(hits: Seq<Hit>, n: int, i: int, j: int, x: int, y: int)
    requires
        ordered::increasing(hits),
        0 <= n <= hits.len(),
        0 <= i < j < regions::regions_of(hits, n).len(),
    ensures
        !(regions::regions_of(hits, n)[i].covers(x, y) && regions::regions_of(hits, n)[j].covers(
            x,
            y,
        )),
    decreases n,
{
    let all = regions::regions_of(hits, n);
    let a = regions::regions_of(hits, n - 1);
    if n > 0 {
        if j < a.len() {
            law_regions_are_disjoint(hits, n - 1, i, j, x, y);
        } else if i < a.len() {
            lemma_covered_up_to(hits, n - 1);
            assert(all[i] == a[i]);
            assert(hits[n - 2].ranked(hits[n - 1]) == ordered::Rank::Before);
            assert(a[i].covers(x, y) ==> up_to(hits[n - 2], x, y));
        }
    }
}

/// A span holds at least one pixel. It reaches from just after one hit to
/// just before the next one of the row, which lies on another segment, and it
/// comes right after the boundary region of that hit.
pub proof fn law_spans_lie_between_hits(hits: Seq<Hit>, n: int, i: int)
    requires
        ordered::increasing(hits),
        0 <= n <= hits.len(),
        0 <= i < regions::regions_of(hits, n).len(),
        regions::regions_of(hits, n)[i] is Span,
    ensures
        ({
            let all = regions::regions_of(hits, n);
            exists|k: int|
                {
                    &&& 0 < k < n
                    &&& #[trigger] regions::closes_span(hits, k)
                    &&& hits[k - 1].segment_id != hits[k].segment_id
                    &&& hits[k - 1].y == hits[k].y
                    &&& hits[k - 1].x + 1 < hits[k].x
                    &&& all[i]->start_x == hits[k - 1].x + 1
                    &&& all[i]->end_x == hits[k].x
                    &&& all[i]->Span_y == hits[k].y
                    &&& i > 0 && all[i - 1] == boundary(hits[k])
                }
        }),
    decreases n,
{
    let all = regions::regions_of(hits, n);
    let a = regions::regions_of(hits, n - 1);
    if i < a.len() {
        law_spans_lie_between_hits(hits, n - 1, i);
        assert(all[i] == a[i]);
        if i > 0 {
            assert(all[i - 1] == a[i - 1]);
        }
    } else {
        assert(regions::closes_span(hits, n - 1));
        assert(hits[n - 2].ranked(hits[n - 1]) == ordered::Rank::Before);
    }
}

/// The pixels between the hit before `hits[k]` and `hits[k]`.
pub open spec fn between(hits: Seq<Hit>, k: int, x: int, y: int) -> bool {
    y == hits[k].y && hits[k - 1].x < x < hits[k].x
}

/// Exactly those pixels are shaded that a hit names, or that lie between two
/// neighbouring hits of a row where the second one closes a span.
pub proof fn law_shaded_pixels(hits: Seq<Hit>, n: int, x: int, y: int)
    requires
        ordered::increasing(hits),
        0 <= n <= hits.len(),
    ensures
        (exists|i: int|
            0 <= i < regions::regions_of(hits, n).len() && #[trigger] regions::regions_of(
                hits,
                n,
            )[i].covers(x, y)) <==> (exists|k: int|
            0 <= k < n && ((#[trigger] hits[k]).x == x && hits[k].y == y || regions::closes_span(
                hits,
                k,
            ) && between(hits, k, x, y))),
    decreases n,
{
    let all = regions::regions_of(hits, n);
    if n > 0 {
        law_shaded_pixels(hits, n - 1, x, y);
        let a = regions::regions_of(hits, n - 1);
        let b = regions::regions_at(hits, n - 1);
        if n > 1 {
            assert(hits[n - 2].ranked(hits[n - 1]) == ordered::Rank::Before);
        }
        if exists|i: int| 0 <= i < all.len() && #[trigger] all[i].covers(x, y) {
            let i = choose|i: int| 0 <= i < all.len() && #[trigger] all[i].covers(x, y);
            if i < a.len() {
                assert(a[i].covers(x, y));
            } else {
                assert(hits[n - 1] == hits[n - 1]);
            }
        }
        if exists|k: int|
            0 <= k < n && ((#[trigger] hits[k]).x == x && hits[k].y == y || regions::closes_span(
                hits,
                k,
            ) && between(hits, k, x, y)) {
            let k = choose|k: int|
                0 <= k < n && ((#[trigger] hits[k]).x == x && hits[k].y == y
                    || regions::closes_span(hits, k) && between(hits, k, x, y));
            if k < n - 1 {
                let i = choose|i: int| 0 <= i < a.len() && #[trigger] a[i].covers(x, y);
                assert(all[i] == a[i]);
                assert(all[i].covers(x, y));
            } else if hits[k].x == x && hits[k].y == y {
                assert(all[a.len() as int] == b[0]);
                assert(all[a.len() as int].covers(x, y));
            } else {
                assert(all[a.len() as int + 1] == b[1]);
                assert(all[a.len() as int + 1].covers(x, y));
            }
        }
    }
}

/// A span comes at most at every other hit of a row, so there are at most half
/// as many spans as hits.
pub proof fn law_half_as_many_spans(hits: Seq<Hit>, n: int)
    requires
        0 <= n <= hits.len(),
    ensures
        n <= regions::regions_of(hits, n).len() <= n + n / 2,
        forall|i: int|
            0 < i < hits.len() && #[trigger] regions::closes_span(hits, i)
                ==> !regions::closes_span(hits, i - 1),
    decreases n,
{
    if n > 1 {
        law_half_as_many_spans(hits, n - 2);
        assert(regions::regions_of(hits, n - 1).len() == regions::regions_of(hits, n - 2).len()
            + regions::regions_at(hits, n - 2).len());
        assert(regions::closes_span(hits, n - 1) ==> !regions::closes_span(hits, n - 2));
    } else if n == 1 {
        assert(regions::regions_of(hits, 0).len() == 0);
        assert(!regions::closes_span(hits, 0));
    }
}

/// The hits of `b` are those of `a`, moved by whole pixels and with other names
/// for the segments.
pub open spec fn moved(a: Seq<Hit>, b: Seq<Hit>, dx: int, dy: int) -> bool {
    &&& a.len() == b.len()
    &&& forall|i: int|
        0 <= i < a.len() ==> {
            &&& (#[trigger] b[i]).x == a[i].x + dx
            &&& b[i].y == a[i].y + dy
            &&& b[i].y_range == a[i].y_range
            &&& b[i].uncovered == a[i].uncovered
        }
    &&& forall|i: int, j: int|
        0 <= i < a.len() && 0 <= j < a.len() ==> ((#[trigger] a[i]).segment_id == (
        #[trigger] a[j]).segment_id <==> b[i].segment_id == b[j].segment_id)
}

/// The region, moved by whole pixels.
pub open spec fn moved_region(region: Region, dx: int, dy: int) -> Region {
    match region {
        Region::Boundary { x, y } => Region::Boundary {
            x: (x + dx) as isize,
            y: (y + dy) as isize,
        },
        Region::Span { start_x, end_x, y } => Region::Span {
            start_x: (start_x + dx) as isize,
            end_x: (end_x + dx) as isize,
            y: (y + dy) as isize,
        },
    }
}

proof fn lemma_moved(a: Seq<Hit>, b: Seq<Hit>, dx: int, dy: int, i: int)
    requires
        moved(a, b, dx, dy),
        0 <= i < a.len(),
    ensures
        regions::winding_number(b, i) == regions::winding_number(a, i),
        regions::closes_span(b, i) == regions::closes_span(a, i),
    decreases i,
{
    if i > 0 {
        lemma_moved(a, b, dx, dy, i - 1);
        assert(a[i - 1].segment_id == a[i].segment_id <==> b[i - 1].segment_id
            == b[i].segment_id);
        assert(b[i - 1].y_range == a[i - 1].y_range && b[i].y_range == a[i].y_range);
        assert(regions::overlap(b[i - 1], b[i]) == regions::overlap(a[i - 1], a[i]));
    }
}

/// The regions move with the hits. No row and no column is special, and the
/// names of the segments matter only where they are equal.
pub proof fn law_regions_move_with_hits(a: Seq<Hit>, b: Seq<Hit>, dx: int, dy: int, n: int)
    requires
        ordered::increasing(a),
        moved(a, b, dx, dy),
        0 <= n <= a.len(),
    ensures
        regions::regions_of(b, n) == regions::regions_of(a, n).map_values(
            |r: Region| moved_region(r, dx, dy),
        ),
    decreases n,
{
    let f = |r: Region| moved_region(r, dx, dy);
    if n > 0 {
        law_regions_move_with_hits(a, b, dx, dy, n - 1);
        lemma_moved(a, b, dx, dy, n - 1);
        if n > 1 {
            assert(a[n - 2].ranked(a[n - 1]) == ordered::Rank::Before);
        }
        assert(b[n - 1].x == a[n - 1].x + dx);
        if regions::closes_span(a, n - 1) {
            assert(b[n - 2].x == a[n - 2].x + dx);
        }
        assert(regions::regions_at(b, n - 1) =~= regions::regions_at(a, n - 1).map_values(f));
        assert(regions::regions_of(b, n) =~= regions::regions_of(a, n).map_values(f));
    } else {
        assert(regions::regions_of(b, n) =~= regions::regions_of(a, n).map_values(f));
    }
}

/// The row of a region.
pub open spec fn row(region: Region) -> isize {
    match region {
        Region::Boundary { x, y } => y,
        Region::Span { start_x, end_x, y } => y,
    }
}

proof fn lemma_rows_up_to(hits: Seq<Hit>, n: int, i: int)
    requires
        ordered::increasing(hits),
        0 <= n <= hits.len(),
        0 <= i < regions::regions_of(hits, n).len(),
    ensures
        row(regions::regions_of(hits, n)[i]) <= hits[n - 1].y,
    decreases n,
{
    let a = regions::regions_of(hits, n - 1);
    if i < a.len() {
        lemma_rows_up_to(hits, n - 1, i);
        assert(regions::regions_of(hits, n)[i] == a[i]);
        assert(hits[n - 2].ranked(hits[n - 1]) == ordered::Rank::Before);
    }
}

/// The regions come row by row.
pub proof fn law_rows_in_order(hits: Seq<Hit>, n: int, i: int, j: int)
    requires
        ordered::increasing(hits),
        0 <= n <= hits.len(),
        0 <= i <= j < regions::regions_of(hits, n).len(),
    ensures
        row(regions::regions_of(hits, n)[i]) <= row(regions::regions_of(hits, n)[j]),
    decreases n,
{
    let all = regions::regions_of(hits, n);
    let a = regions::regions_of(hits, n - 1);
    if j < a.len() {
        law_rows_in_order(hits, n - 1, i, j);
        assert(all[i] == a[i] && all[j] == a[j]);
    } else if i < a.len() {
        lemma_rows_up_to(hits, n, i);
    }
}

/// Rows do not influence each other: where `a` ends in another row than `b`
/// begins in, the regions of both together are those of `a` and of `b`.
pub proof fn law_rows_are_independent(a: Seq<Hit>, b: Seq<Hit>, n: int)
    requires
        0 <= n <= b.len(),
        a.len() > 0 && b.len() > 0 ==> a.last().y != b[0].y,
    ensures
        regions::regions_of(a + b, a.len() + n) == regions::regions_of(a, a.len() as int)
            + regions::regions_of(b, n),
    decreases n,
{
    if n == 0 {
        lemma_prefix_decides(a, b, a.len() as int);
        assert(regions::regions_of(b, 0) =~= Seq::empty());
    } else {
        law_rows_are_independent(a, b, n - 1);
        lemma_suffix_decides(a, b, n - 1);
        assert(regions::regions_of(a + b, a.len() + n) =~= regions::regions_of(
            a,
            a.len() as int,
        ) + regions::regions_of(b, n));
    }
}

proof fn lemma_prefix_decides(a: Seq<Hit>, b: Seq<Hit>, n: int)
    requires
        0 <= n <= a.len(),
    ensures
        regions::regions_of(a + b, n) == regions::regions_of(a, n),
        n > 0 ==> regions::winding_number(a + b, n - 1) == regions::winding_number(a, n - 1),
    decreases n,
{
    if n > 0 {
        lemma_prefix_decides(a, b, n - 1);
    }
}

proof fn lemma_suffix_decides(a: Seq<Hit>, b: Seq<Hit>, i: int)
    requires
        0 <= i < b.len(),
        a.len() > 0 ==> a.last().y != b[0].y,
    ensures
        regions::winding_number(a + b, a.len() + i) == regions::winding_number(b, i),
        regions::regions_at(a + b, a.len() + i) == regions::regions_at(b, i),
    decreases i,
{
    if i > 0 {
        lemma_suffix_decides(a, b, i - 1);
    }
}

/// The pixel (x, y) is shaded by `command`.
pub open spec fn command_covers(command: ShadeCommand, px: int, py: int) -> bool {
    match command {
        ShadeCommand::Boundary { x, y, coverage } => px == x && py == y,
        ShadeCommand::Span { x, y } => x.start <= px < x.end && py == y,
    }
}

/// No pixel is shaded twice.
pub proof fn law_no_pixel_is_shaded_twice(
    hits: Seq<Hit>,
    commands: Seq<ShadeCommand>,
    covered: spec_fn(Point, Scalar) -> bool,
    i: int,
    j: int,
    x: int,
    y: int,
)
    requires
        ordered::increasing(hits),
        region_list::shade_hits(commands, hits, covered),
        0 <= i < j < commands.len(),
    ensures
        !(command_covers(commands[i], x, y) && command_covers(commands[j], x, y)),
{
    law_regions_are_disjoint(hits, hits.len() as int, i, j, x, y);
    assert(region_list::shades(
        commands[i],
        regions::regions_of(hits, hits.len() as int)[i],
        covered,
    ));
    assert(region_list::shades(
        commands[j],
        regions::regions_of(hits, hits.len() as int)[j],
        covered,
    ));
}

/// The two commands are equal but for the coverage.
pub open spec fn equal_but_coverage(a: ShadeCommand, b: ShadeCommand) -> bool {
    match a {
        ShadeCommand::Boundary { x, y, coverage } => b matches ShadeCommand::Boundary {
            x: bx,
            y: by,
            coverage: _,
        } && x == bx && y == by,
        ShadeCommand::Span { x, y } => a == b,
    }
}

/// Two shadings of the same hits, at whatever sample depths, differ in their
/// coverages alone.
pub proof fn law_shadings_differ_in_coverage(
    hits: Seq<Hit>,
    a: Seq<ShadeCommand>,
    b: Seq<ShadeCommand>,
    covered_a: spec_fn(Point, Scalar) -> bool,
    covered_b: spec_fn(Point, Scalar) -> bool,
)
    requires
        region_list::shade_hits(a, hits, covered_a),
        region_list::shade_hits(b, hits, covered_b),
    ensures
        a.len() == b.len(),
        forall|i: int| 0 <= i < a.len() ==> equal_but_coverage(#[trigger] a[i], b[i]),
{
    let all = regions::regions_of(hits, hits.len() as int);
    assert forall|i: int| 0 <= i < a.len() implies equal_but_coverage(#[trigger] a[i], b[i]) by {
        assert(region_list::shades(a[i], all[i], covered_a));
        assert(region_list::shades(b[i], all[i], covered_b));
    }
}

/// Two shadings of the same hits are equal where their coverages agree on each
/// corner.
pub proof fn law_shading_is_repeatable(
    hits: Seq<Hit>,
    a: Seq<ShadeCommand>,
    b: Seq<ShadeCommand>,
    covered_a: spec_fn(Point, Scalar) -> bool,
    covered_b: spec_fn(Point, Scalar) -> bool,
)
    requires
        region_list::shade_hits(a, hits, covered_a),
        region_list::shade_hits(b, hits, covered_b),
        forall|corner: Point, c: Scalar, d: Scalar| #[trigger]
            covered_a(corner, c) && #[trigger] covered_b(corner, d) ==> c == d,
    ensures
        a == b,
{
    let all = regions::regions_of(hits, hits.len() as int);
    assert forall|i: int| 0 <= i < a.len() implies #[trigger] a[i] == b[i] by {
        assert(region_list::shades(a[i], all[i], covered_a));
        assert(region_list::shades(b[i], all[i], covered_b));
        if let Region::Boundary { x, y } = all[i] {
            let (c, d) = (a[i]->coverage, b[i]->coverage);
            let p = choose|p: Point| #[trigger]
                region_list::is_corner(p, x, y) && covered_a(p, c);
            let q = choose|q: Point| #[trigger]
                region_list::is_corner(q, x, y) && covered_b(q, d);
            arithmetic::lemma_is_number_unique(p.x, q.x, x);
            arithmetic::lemma_is_number_unique(p.y, q.y, y);
            assert(p == q);
            assert(covered_a(p, c) && covered_b(p, d));
        }
    }
    assert(a =~= b);
}

} // verus!
