use amicola::{Axis, Bounds, Point, Region, RegionList, Scalar, Segment, ShadeCommand};
use lyon_path::geom::LineSegment;
use lyon_path::math::Point as PathPoint;
use std::collections::BTreeSet;

fn number(v: f32) -> Scalar {
    Scalar { bits: v.to_bits() }
}

fn single(s: Scalar) -> f32 {
    f32::from_bits(s.bits)
}

fn point(p: PathPoint) -> Point {
    Point { x: number(p.x), y: number(p.y) }
}

fn path_point(p: Point) -> PathPoint {
    PathPoint::new(single(p.x), single(p.y))
}

fn line(s: Segment) -> LineSegment<f32> {
    LineSegment { from: path_point(s.from), to: path_point(s.to) }
}

fn bounding_rect(s: Segment) -> Bounds {
    let bounds = line(s).bounding_rect();
    Bounds {
        min_x: number(bounds.min_x()),
        max_x: number(bounds.max_x()),
        min_y: number(bounds.min_y()),
        max_y: number(bounds.max_y()),
    }
}

fn intersection_t(s: Segment, axis: Axis, at: Scalar) -> Option<Scalar> {
    let t = match axis {
        Axis::Horizontal => line(s).horizontal_line_intersection_t(single(at)),
        Axis::Vertical => line(s).vertical_line_intersection_t(single(at)),
    };
    t.map(number)
}

fn sample(s: Segment, t: Scalar) -> Point {
    point(line(s).sample(single(t)))
}

fn region_list(segments: Vec<Segment>) -> RegionList {
    RegionList::from(segments, bounding_rect, intersection_t, sample)
}

/// The closed outline through the corners.
fn polygon(corners: &[(f32, f32)]) -> Vec<Segment> {
    (0..corners.len())
        .map(|i| {
            let (from, to) = (corners[i], corners[(i + 1) % corners.len()]);
            Segment {
                from: Point { x: number(from.0), y: number(from.1) },
                to: Point { x: number(to.0), y: number(to.1) },
            }
        })
        .collect()
}

fn rectangle(x0: f32, y0: f32, x1: f32, y1: f32) -> Vec<Segment> {
    polygon(&[(x0, y0), (x0, y1), (x1, y1), (x1, y0)])
}

fn pixels(list: &RegionList) -> BTreeSet<(isize, isize)> {
    list.hits.as_vec().iter().map(|h| (h.x, h.y)).collect()
}

/// What tells two hits apart, but for what lies between them and others.
fn piece(h: &amicola::Hit) -> (isize, isize, u32, u32, usize) {
    (h.x, h.y, h.y_range.start.bits, h.y_range.end.bits, h.segment_id)
}

fn next(state: &mut u64) -> u64 {
    *state ^= *state << 13;
    *state ^= *state >> 7;
    *state ^= *state << 17;
    *state
}

/// Whether, at every height of row `y`, an odd number of edges lies to the left
/// of the middle of column `x`.
fn is_inside(segments: &[Segment], x: isize, y: isize) -> bool {
    let (low, high, cx) = (y as f64, y as f64 + 1.0, x as f64 + 0.5);
    let mut heights: Vec<f64> = segments
        .iter()
        .flat_map(|s| [single(s.from.y) as f64, single(s.to.y) as f64])
        .filter(|v| low < *v && *v < high)
        .collect();
    heights.extend([low, high]);
    heights.sort_by(|a, b| a.partial_cmp(b).unwrap());
    heights.windows(2).filter(|w| w[0] < w[1]).all(|w| {
        let v = (w[0] + w[1]) / 2.0;
        let edges = segments.iter().filter(|s| {
            let (x0, y0) = (single(s.from.x) as f64, single(s.from.y) as f64);
            let (x1, y1) = (single(s.to.x) as f64, single(s.to.y) as f64);
            (y0 <= v) != (y1 <= v) && x0 + (v - y0) / (y1 - y0) * (x1 - x0) < cx
        });
        edges.count() % 2 == 1
    })
}

#[test]
fn a_notch_keeps_a_span_away() {
    let segments = polygon(&[
        (0.0, 0.0),
        (10.0, 0.0),
        (10.0, 1.0),
        (6.0, 1.0),
        (6.0, 0.75),
        (4.0, 0.75),
        (4.0, 1.0),
        (0.0, 1.0),
    ]);
    assert_eq!(
        RegionList::regions(region_list(segments).hits),
        vec![
            Region::Boundary { x: 0, y: 0 },
            Region::Boundary { x: 4, y: 0 },
            Region::Span { start_x: 1, end_x: 4, y: 0 },
            Region::Boundary { x: 6, y: 0 },
            Region::Boundary { x: 10, y: 0 },
            Region::Span { start_x: 7, end_x: 10, y: 0 },
        ]
    );
}

#[test]
fn a_rectangle_has_spans_in_full_rows_alone() {
    assert_eq!(
        RegionList::regions(region_list(rectangle(0.0, 0.25, 10.0, 0.75)).hits),
        vec![Region::Boundary { x: 0, y: 0 }, Region::Boundary { x: 10, y: 0 }]
    );
    assert_eq!(
        RegionList::regions(region_list(rectangle(0.5, 0.25, 4.5, 2.75)).hits),
        vec![
            Region::Boundary { x: 0, y: 0 },
            Region::Boundary { x: 4, y: 0 },
            Region::Boundary { x: 0, y: 1 },
            Region::Boundary { x: 4, y: 1 },
            Region::Span { start_x: 1, end_x: 4, y: 1 },
            Region::Boundary { x: 0, y: 2 },
            Region::Boundary { x: 4, y: 2 },
        ]
    );
}

#[test]
fn a_thin_rectangle_leaves_no_span_outside() {
    let mut segments = rectangle(0.25, 0.0, 0.5, 1.0);
    segments.extend(rectangle(3.0, 0.0, 6.0, 1.0));
    assert_eq!(
        RegionList::regions(region_list(segments).hits),
        vec![
            Region::Boundary { x: 0, y: 0 },
            Region::Boundary { x: 3, y: 0 },
            Region::Boundary { x: 6, y: 0 },
        ]
    );
}

#[test]
fn spans_are_completely_covered() {
    let mut state = 88172645463325252u64;
    let mut spans = 0;
    for round in 0..600 {
        let n = 3 + next(&mut state) % 6;
        // Every other path has corners in halves, so with many level sides.
        let unit = if round % 2 == 0 { 16 } else { 2 };
        let corners: Vec<(f32, f32)> = (0..n)
            .map(|_| {
                let x = (next(&mut state) % (25 * unit)) as f32 / unit as f32 - 4.0;
                let y = (next(&mut state) % (15 * unit)) as f32 / unit as f32 - 3.0;
                (x, y)
            })
            .collect();
        let segments = polygon(&corners);
        let list = region_list(segments.clone());
        let (hit, count) = (pixels(&list), list.hits.as_vec().len());
        for pair in list.hits.as_vec().windows(2) {
            let (last, h) = (&pair[0], &pair[1]);
            let gap = last.y == h.y && h.x - last.x > 1;
            assert_eq!(h.uncovered, gap && !is_inside(&segments, h.x - 1, h.y));
        }
        let regions = RegionList::regions(list.hits);
        assert!(count <= regions.len() && regions.len() <= count + count / 2);
        for region in regions {
            if let Region::Span { start_x, end_x, y } = region {
                spans += 1;
                for x in start_x..end_x {
                    assert!(!hit.contains(&(x, y)));
                    assert!(is_inside(&segments, x, y));
                }
            }
        }
    }
    assert!(spans > 600);
}

#[test]
fn a_level_segment_changes_nothing_wherever_it_stands() {
    let segments = polygon(&[(0.5, 0.25), (7.0, 2.5), (3.25, 6.75)]);
    let level = polygon(&[(1.0, 3.3), (6.0, 3.3)])[0];
    let list = region_list(segments.clone());
    for i in 0..=segments.len() {
        let mut more = segments.clone();
        more.insert(i, level);
        let same = region_list(more);
        assert_eq!(same.segments.len(), list.segments.len());
        assert!(same.segments.iter().zip(&list.segments).all(|(a, b)| a == b));
        let pieces: Vec<_> = same.hits.as_vec().iter().map(|h| (piece(h), h.uncovered)).collect();
        let expected: Vec<_> = list.hits.as_vec().iter().map(|h| (piece(h), h.uncovered)).collect();
        assert_eq!(pieces, expected);
    }
    let alone = region_list(vec![level]);
    assert!(alone.segments.is_empty());
    assert!(alone.hits.as_vec().is_empty());
}

#[test]
fn joined_paths_hit_the_pixels_of_both() {
    let a = polygon(&[(0.5, 0.25), (7.0, 2.5), (3.25, 6.75)]);
    let b = rectangle(2.5, 1.25, 5.75, 4.5);
    let both: Vec<Segment> = a.iter().chain(&b).copied().collect();
    let (one, other, joined) = (region_list(a), region_list(b), region_list(both));
    let union: BTreeSet<_> = pixels(&one).union(&pixels(&other)).copied().collect();
    assert_eq!(pixels(&joined), union);
    assert!(pixels(&one).intersection(&pixels(&other)).count() > 0);
    // The hits of the first path are all there.
    let kept: BTreeSet<_> = joined.hits.as_vec().iter().map(piece).collect();
    assert!(one.hits.as_vec().iter().all(|h| kept.contains(&piece(h))));
}

#[test]
fn the_order_of_the_segments_does_not_change_the_pixels() {
    let mut segments = polygon(&[(0.5, 0.25), (7.0, 2.5), (3.25, 6.75), (3.0, 1.0)]);
    let expected = pixels(&region_list(segments.clone()));
    segments.reverse();
    assert_eq!(pixels(&region_list(segments.clone())), expected);
    segments.rotate_left(2);
    assert_eq!(pixels(&region_list(segments)), expected);
}

#[test]
fn a_hit_is_that_of_the_first_segment_in_its_pixel() {
    let segments = polygon(&[(0.5, 0.25), (3.0, 2.5), (1.25, 2.75), (2.9, 0.4)]);
    let list = region_list(segments.clone());
    let alone: Vec<RegionList> = segments.iter().map(|s| region_list(vec![*s])).collect();
    for h in list.hits.as_vec() {
        let first = alone.iter().position(|l| pixels(l).contains(&(h.x, h.y))).unwrap();
        assert_eq!(h.segment_id, first);
        let own = alone[first].hits.as_vec().iter().find(|o| (o.x, o.y) == (h.x, h.y)).unwrap();
        assert_eq!(own.y_range.start.bits, h.y_range.start.bits);
        assert_eq!(own.y_range.end.bits, h.y_range.end.bits);
    }
}

#[test]
fn shadings_differ_in_coverage_alone() {
    let segments = polygon(&[(0.5, 0.25), (7.0, 2.5), (3.25, 6.75)]);
    let shaded = |depth: u8| {
        region_list(segments.clone()).shade_commands(depth, |corner: Point, depth, lines| {
            number(single(corner.x) + depth as f32 + lines.len() as f32)
        })
    };
    assert_eq!(shaded(4), shaded(4));
    let (four, eight) = (shaded(4), shaded(8));
    assert_ne!(four, eight);
    assert_eq!(four.len(), eight.len());
    for (a, b) in four.iter().zip(&eight) {
        match (a, b) {
            (
                ShadeCommand::Boundary { x, y, coverage },
                ShadeCommand::Boundary { x: bx, y: by, coverage: other },
            ) => {
                assert_eq!((x, y), (bx, by));
                assert_eq!(single(*other) - single(*coverage), 4.0);
            }
            _ => assert_eq!(a, b),
        }
    }
}
