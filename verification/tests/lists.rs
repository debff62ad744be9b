use amicola::grid_lines::grid_lines;
use amicola::inside::is_covered;
use amicola::outline::assemble;
use amicola::trace::trace;
use amicola::{Axis, Bounds, Hit, OrderedSet, Point, RawHit, Region, RegionList, Scalar, Segment, ShadeCommand, Traced};

fn number(v: f32) -> Scalar {
    Scalar { bits: v.to_bits() }
}

fn point(x: f32, y: f32) -> Point {
    Point { x: number(x), y: number(y) }
}

fn segment(x0: f32, y0: f32, x1: f32, y1: f32) -> Segment {
    Segment { from: point(x0, y0), to: point(x1, y1) }
}

fn bounds(x: (f32, f32), y: (f32, f32)) -> Bounds {
    Bounds { min_x: number(x.0), max_x: number(x.1), min_y: number(y.0), max_y: number(y.1) }
}

fn hit(x: isize, y: isize, heights: (f32, f32), segment_id: usize) -> Hit {
    Hit { x, y, y_range: number(heights.0)..number(heights.1), segment_id, uncovered: false }
}

fn regions(hits: Vec<Hit>) -> Vec<Region> {
    let mut set = OrderedSet::new();
    for h in hits {
        set.insert(h);
    }
    RegionList::regions(set)
}

fn boundary(x: isize, y: isize) -> Region {
    Region::Boundary { x, y }
}

fn span(start_x: isize, end_x: isize, y: isize) -> Region {
    Region::Span { start_x, end_x, y }
}

#[test]
fn no_hits_no_regions() {
    assert_eq!(RegionList::regions(OrderedSet::new()), vec![]);
    let empty = RegionList::default();
    assert!(empty.segments.is_empty());
    assert!(empty.shade_commands(0u8, |_, _, _| number(1.0)).is_empty());
}

#[test]
fn a_gap_between_two_edges_is_a_span() {
    assert_eq!(
        regions(vec![hit(1, 0, (0.0, 1.0), 0), hit(5, 0, (0.0, 1.0), 1)]),
        vec![boundary(1, 0), boundary(5, 0), span(2, 5, 0)]
    );
}

#[test]
fn a_gap_on_one_segment_is_no_span() {
    assert_eq!(
        regions(vec![hit(1, 0, (0.0, 1.0), 0), hit(5, 0, (0.0, 1.0), 0)]),
        vec![boundary(1, 0), boundary(5, 0)]
    );
}

#[test]
fn only_every_other_gap_is_inside() {
    let row: Vec<Hit> = (0..4).map(|i| hit(3 * i as isize, 7, (7.0, 8.0), i)).collect();
    assert_eq!(
        regions(row),
        vec![
            boundary(0, 7),
            boundary(3, 7),
            span(1, 3, 7),
            boundary(6, 7),
            boundary(9, 7),
            span(7, 9, 7),
        ]
    );
}

#[test]
fn neighbours_that_do_not_overlap_are_one_edge() {
    // Two segments that join: together they are one edge.
    assert_eq!(
        regions(vec![
            hit(0, 0, (0.0, 0.5), 0),
            hit(1, 0, (0.5, 1.0), 1),
            hit(4, 0, (0.0, 1.0), 2),
        ]),
        vec![boundary(0, 0), boundary(1, 0), boundary(4, 0), span(2, 4, 0)]
    );
    // Two segments side by side: two edges.
    assert_eq!(
        regions(vec![
            hit(0, 0, (0.0, 0.6), 0),
            hit(1, 0, (0.5, 1.0), 1),
            hit(4, 0, (0.0, 1.0), 2),
        ]),
        vec![boundary(0, 0), boundary(1, 0), boundary(4, 0)]
    );
}

#[test]
fn heights_that_are_not_numbers_do_not_overlap() {
    assert_eq!(
        regions(vec![
            hit(0, 0, (f32::NAN, f32::NAN), 0),
            hit(1, 0, (0.0, 1.0), 1),
            hit(4, 0, (0.0, 1.0), 2),
        ]),
        vec![boundary(0, 0), boundary(1, 0), boundary(4, 0), span(2, 4, 0)]
    );
}

#[test]
fn rows_are_counted_one_by_one() {
    let upper = vec![hit(0, 0, (0.0, 1.0), 0)];
    let lower = vec![hit(5, 1, (1.0, 2.0), 1), hit(8, 1, (1.0, 2.0), 2)];
    let mut both = regions(upper.clone());
    both.extend(regions(lower.clone()));
    let mut all = upper;
    all.extend(lower);
    assert_eq!(regions(all), both);
    assert_eq!(both, vec![boundary(0, 0), boundary(5, 1), boundary(8, 1), span(6, 8, 1)]);
}

#[test]
fn the_ends_of_the_range_are_far_apart() {
    assert_eq!(
        regions(vec![hit(isize::MIN, 0, (0.0, 1.0), 0), hit(isize::MAX, 0, (0.0, 1.0), 1)]),
        vec![
            boundary(isize::MIN, 0),
            boundary(isize::MAX, 0),
            span(isize::MIN + 1, isize::MAX, 0),
        ]
    );
}

#[test]
fn no_pixel_belongs_to_two_regions() {
    let mut hits = Vec::new();
    for y in 0..6isize {
        for i in 0..6isize {
            let x = (i * i * 3 + y * 7) % 23;
            hits.push(hit(x, y, (0.0, 1.0 + i as f32), (i * 5 + y) as usize % 7));
        }
    }
    let mut seen = std::collections::BTreeSet::new();
    let mut last_row = isize::MIN;
    for region in regions(hits) {
        let (start, end, y) = match region {
            Region::Boundary { x, y } => (x, x + 1, y),
            Region::Span { start_x, end_x, y } => (start_x, end_x, y),
        };
        assert!(start < end);
        assert!(last_row <= y);
        last_row = y;
        for x in start..end {
            assert!(seen.insert((x, y)));
        }
    }
}

fn crossing(t: f32, x: f32, y: f32) -> Option<RawHit> {
    Some(RawHit { position: point(x, y), t: number(t) })
}

#[test]
fn pieces_become_hits() {
    // From (0.5, 0.25) to (2.5, 2.25), cut where it crosses the grid.
    let traced = vec![Traced {
        segment: segment(0.5, 0.25, 2.5, 2.25),
        crossings: vec![
            crossing(0.375, 1.25, 1.0),
            crossing(0.875, 2.25, 2.0),
            None,
            crossing(0.25, 1.0, 0.75),
            crossing(0.75, 2.0, 1.75),
        ],
    }];
    let list = assemble(traced);
    let hits = list.hits.into_vec();
    let cells: Vec<(isize, isize, u32, u32, usize)> = hits
        .iter()
        .map(|h| (h.x, h.y, h.y_range.start.bits, h.y_range.end.bits, h.segment_id))
        .collect();
    let b = |v: f32| v.to_bits();
    assert_eq!(
        cells,
        vec![
            (0, 0, b(0.25), b(0.75), 0),
            (1, 0, b(0.75), b(1.0), 0),
            (1, 1, b(1.0), b(1.75), 0),
            (2, 1, b(1.75), b(2.0), 0),
            (2, 2, b(2.0), b(2.25), 0),
        ]
    );
}

#[test]
fn the_hit_of_the_first_segment_stays() {
    let traced = vec![
        Traced { segment: segment(0.1, 0.1, 0.9, 0.9), crossings: vec![] },
        Traced { segment: segment(0.9, 0.4, 0.1, 0.2), crossings: vec![] },
    ];
    let list = assemble(traced);
    assert_eq!(list.segments.len(), 2);
    let hits = list.hits.into_vec();
    assert_eq!(hits.len(), 1);
    assert_eq!(hits[0].segment_id, 0);
    assert_eq!((hits[0].x, hits[0].y), (0, 0));
}

fn uncut(segments: Vec<Segment>) -> RegionList {
    assemble(segments.into_iter().map(|segment| Traced { segment, crossings: vec![] }).collect())
}

#[test]
fn edges_that_share_a_pixel_make_no_span() {
    // Two rectangles: the first lies within one pixel.
    let list = uncut(vec![
        segment(0.25, 0.0, 0.25, 1.0),
        segment(0.5, 1.0, 0.5, 0.0),
        segment(3.0, 0.0, 3.0, 1.0),
        segment(6.0, 1.0, 6.0, 0.0),
    ]);
    let marks: Vec<(isize, bool)> =
        list.hits.as_vec().iter().map(|h| (h.x, h.uncovered)).collect();
    assert_eq!(marks, vec![(0, false), (3, true), (6, false)]);
    assert_eq!(
        RegionList::regions(list.hits),
        vec![boundary(0, 0), boundary(3, 0), boundary(6, 0)]
    );
}

#[test]
fn the_last_gap_of_a_row_is_looked_at() {
    // The same with the thin rectangle to the right.
    let list = uncut(vec![
        segment(3.0, 0.0, 3.0, 1.0),
        segment(6.0, 1.0, 6.0, 0.0),
        segment(9.25, 0.0, 9.25, 1.0),
        segment(9.5, 1.0, 9.5, 0.0),
    ]);
    assert_eq!(
        RegionList::regions(list.hits),
        vec![boundary(3, 0), boundary(6, 0), span(4, 6, 0), boundary(9, 0)]
    );
}

fn upright(x: f32, low: f32, high: f32) -> Segment {
    segment(x, low, x, high)
}

#[test]
fn every_height_of_a_row_counts() {
    let covered = |segments: Vec<Segment>, y: isize| is_covered(&segments, y);
    assert!(covered(vec![upright(0.0, 0.0, 1.0)], 0));
    assert!(covered(vec![upright(0.0, 1.0, 0.0)], 0));
    assert!(covered(vec![upright(0.0, -3.5, 7.25)], 0));
    assert!(!covered(vec![upright(0.0, 0.25, 0.75)], 0));
    assert!(!covered(vec![upright(0.0, 0.0, 0.75)], 0));
    assert!(!covered(vec![upright(0.0, 0.25, 1.0)], 0));
    assert!(!covered(vec![upright(0.0, 0.0, 1.0)], 1));
    assert!(!covered(vec![], 0));
    // Joined, with a hole, and overlapping.
    assert!(covered(vec![upright(0.0, 0.0, 0.3), upright(1.0, 0.3, 1.0)], 0));
    assert!(!covered(vec![upright(0.0, 0.0, 0.3), upright(1.0, 0.4, 1.0)], 0));
    assert!(!covered(vec![upright(0.0, 0.0, 0.4), upright(1.0, 0.3, 1.0)], 0));
    // There, back and there again.
    assert!(covered(
        vec![upright(0.0, 0.0, 0.75), upright(0.2, 0.75, 0.5), upright(0.4, 0.5, 1.0)],
        0
    ));
    // A level edge at 0.75 from the left on.
    assert!(!covered(vec![upright(0.0, 0.0, 1.0), upright(4.0, 1.0, 0.75)], 0));
    assert!(covered(vec![upright(0.0, -2.0, -1.0)], -2));
    assert!(covered(vec![upright(0.0, f32::NEG_INFINITY, f32::INFINITY)], isize::MIN));
    assert!(covered(vec![upright(0.0, f32::NEG_INFINITY, f32::INFINITY)], isize::MAX));
    assert!(!covered(vec![upright(0.0, f32::NAN, 1.0)], 0));
    assert!(covered(vec![upright(0.0, f32::NAN, 1.0), upright(0.0, 0.0, 1.0)], 0));
}

#[test]
fn a_gap_that_is_not_covered_is_no_span() {
    let mut right = hit(5, 0, (0.0, 1.0), 1);
    right.uncovered = true;
    let row = vec![
        hit(1, 0, (0.0, 1.0), 0),
        right,
        hit(9, 0, (0.0, 1.0), 2),
        hit(12, 0, (0.0, 1.0), 3),
    ];
    // The edges are counted all the same.
    assert_eq!(
        regions(row),
        vec![boundary(1, 0), boundary(5, 0), boundary(9, 0), boundary(12, 0), span(10, 12, 0)]
    );
}

#[test]
fn regions_move_with_the_hits() {
    let row = |dx: isize, dy: isize, id: fn(usize) -> usize| {
        regions(vec![
            hit(0 + dx, dy, (0.0, 0.5), id(0)),
            hit(1 + dx, dy, (0.5, 1.0), id(1)),
            hit(4 + dx, dy, (0.0, 1.0), id(2)),
            hit(8 + dx, dy, (0.0, 1.0), id(2)),
        ])
    };
    assert_eq!(
        row(0, 0, |i| i),
        vec![boundary(0, 0), boundary(1, 0), boundary(4, 0), span(2, 4, 0), boundary(8, 0)]
    );
    assert_eq!(
        row(-7, 3, |i| 9 - i),
        vec![boundary(-7, 3), boundary(-6, 3), boundary(-3, 3), span(-5, -3, 3), boundary(1, 3)]
    );
}

#[test]
fn heights_run_upwards() {
    let traced = vec![Traced { segment: segment(0.5, 0.75, 0.25, 0.25), crossings: vec![] }];
    let hits = assemble(traced).hits.into_vec();
    assert_eq!(hits[0].y_range.start.bits, 0.25f32.to_bits());
    assert_eq!(hits[0].y_range.end.bits, 0.75f32.to_bits());
}

#[test]
fn each_grid_line_is_tried_in_order() {
    let segments = vec![
        segment(0.0, 1.0, 5.0, 1.0),
        segment(0.0, 0.0, 2.0, 2.0),
        segment(0.0, f32::NAN, 2.0, f32::NAN),
    ];
    let traced = trace(
        &segments,
        &|_| bounds((0.5, 1.75), (-2.0, 0.25)),
        &|s: Segment, axis, at: Scalar| {
            let at = f32::from_bits(at.bits);
            if at < 0.0 || f32::from_bits(s.from.y.bits).is_nan() {
                None
            } else if axis == Axis::Horizontal {
                Some(number(at + 0.5))
            } else {
                Some(number(at))
            }
        },
        &|s: Segment, t: Scalar| Point { x: t, y: s.to.y },
    );
    assert_eq!(traced.len(), 2);
    assert!(traced[0].segment == segments[1]);
    // The lines y = -2, y = -1, y = 0, then x = 1.
    assert_eq!(traced[0].crossings.len(), 4);
    assert!(traced[0].crossings[0] == None);
    assert!(traced[0].crossings[1] == None);
    assert!(traced[0].crossings[2] == crossing(0.5, 0.5, 2.0));
    assert!(traced[0].crossings[3] == crossing(1.0, 1.0, 2.0));
    assert_eq!(traced[1].crossings.len(), 4);
    assert!(traced[1].crossings.iter().all(|c| c.is_none()));
}

fn square() -> Vec<Segment> {
    vec![
        segment(0.5, 0.0, 0.5, 2.0),
        segment(0.5, 2.0, 4.5, 2.0),
        segment(4.5, 2.0, 4.5, 0.0),
        segment(4.5, 0.0, 0.5, 0.0),
    ]
}

fn halved_list(segments: Vec<Segment>) -> RegionList {
    RegionList::from(
        segments,
        |_| bounds((0.5, 0.5), (0.0, 2.0)),
        |_, _, _| Some(number(0.5)),
        |s: Segment, _| Point { x: s.from.x, y: number(1.0) },
    )
}

#[test]
fn level_segments_play_no_part() {
    let list = halved_list(square());
    let fewer = halved_list(vec![square()[0], square()[2]]);
    assert_eq!(list.segments.len(), 2);
    assert!(list.segments[0] == fewer.segments[0] && list.segments[1] == fewer.segments[1]);
    assert_eq!(RegionList::regions(list.hits), RegionList::regions(fewer.hits));
}

#[test]
fn each_region_is_shaded() {
    let commands = halved_list(square()).shade_commands(8u32, |corner, depth, segments| {
        assert_eq!(depth, 8);
        assert_eq!(segments.len(), 2);
        corner.x.plus(corner.y).halved()
    });
    assert_eq!(
        commands,
        vec![
            ShadeCommand::Boundary { x: 0, y: 0, coverage: number(0.0) },
            ShadeCommand::Boundary { x: 4, y: 0, coverage: number(2.0) },
            ShadeCommand::Span { x: 1..4, y: 0 },
            ShadeCommand::Boundary { x: 0, y: 1, coverage: number(0.5) },
            ShadeCommand::Boundary { x: 4, y: 1, coverage: number(2.5) },
            ShadeCommand::Span { x: 1..4, y: 1 },
        ]
    );
    assert_eq!(commands[2].clone(), commands[2]);
}

#[test]
fn grid_lines_meet_the_bounds() {
    let b = bounds((-1.5, 2.0), (3.0, 3.0));
    assert_eq!(grid_lines(b, Axis::Vertical), vec![-1, 0, 1, 2]);
    assert_eq!(grid_lines(b, Axis::Horizontal), vec![3]);
    let narrow = bounds((0.25, 0.75), (f32::NAN, 1.0));
    assert_eq!(grid_lines(narrow, Axis::Vertical), vec![]);
    assert_eq!(grid_lines(narrow, Axis::Horizontal), vec![]);
    let far = bounds((1.0e30, 1.0e30), (-1.0e30, -1.0e30));
    assert_eq!(grid_lines(far, Axis::Vertical), vec![]);
    assert_eq!(grid_lines(far, Axis::Horizontal), vec![]);
    let backwards = bounds((5.0, 2.0), (-0.0, 0.0));
    assert_eq!(grid_lines(backwards, Axis::Vertical), vec![]);
    assert_eq!(grid_lines(backwards, Axis::Horizontal), vec![0]);
}
