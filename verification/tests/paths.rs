use amicola::{Axis, Bounds, Point, Region, RegionList, Scalar, Segment};
use lyon_path::geom::LineSegment;
use lyon_path::iterator::Flattened;
use lyon_path::math::Point as PathPoint;
use lyon_path::{Builder, PathEvent};

fn number(v: f32) -> Scalar {
    Scalar { bits: v.to_bits() }
}

fn single(s: Scalar) -> f32 {
    f32::from_bits(s.bits)
}

fn point(p: PathPoint) -> Point {
    Point { x: number(p.x), y: number(p.y) }
}

fn path_point(p: Point) -> PathPoint {
    PathPoint::new(single(p.x), single(p.y))
}

fn line(s: Segment) -> LineSegment<f32> {
    LineSegment { from: path_point(s.from), to: path_point(s.to) }
}

fn segment(event: PathEvent) -> Option<LineSegment<f32>> {
    match event {
        PathEvent::Line { from, to } => Some(LineSegment { from, to }),
        PathEvent::End { last, first, .. } => Some(LineSegment { from: last, to: first }),
        _ => None,
    }
}

fn bounding_rect(s: Segment) -> Bounds {
    let bounds = line(s).bounding_rect();
    Bounds {
        min_x: number(bounds.min_x()),
        max_x: number(bounds.max_x()),
        min_y: number(bounds.min_y()),
        max_y: number(bounds.max_y()),
    }
}

fn intersection_t(s: Segment, axis: Axis, at: Scalar) -> Option<Scalar> {
    let t = match axis {
        Axis::Horizontal => line(s).horizontal_line_intersection_t(single(at)),
        Axis::Vertical => line(s).vertical_line_intersection_t(single(at)),
    };
    t.map(number)
}

fn sample(s: Segment, t: Scalar) -> Point {
    point(line(s).sample(single(t)))
}

fn region_list<I: Iterator<Item = LineSegment<f32>>>(lines: I) -> RegionList {
    let segments = lines
        .map(|line| Segment { from: point(line.from), to: point(line.to) })
        .collect();
    RegionList::from(segments, bounding_rect, intersection_t, sample)
}

#[test]
fn small_triangle_boundaries() {
    let mut builder = Builder::new();
    builder.move_to(PathPoint::new(0.0, 0.0));
    builder.line_to(PathPoint::new(0.0, 2.0));
    builder.line_to(PathPoint::new(2.0, 0.0));
    let path = builder.build();
    let flattened_path = Flattened::new(0.1, path.into_iter());

    let regions = region_list(flattened_path.filter_map(segment));

    println!("Regions: {:#?}", regions);

    assert_eq!(
        RegionList::regions(regions.hits),
        vec![
            Region::Boundary { x: 0, y: 0 },
            Region::Boundary { x: 1, y: 0 },
            Region::Boundary { x: 0, y: 1 },
        ]
    );
}

#[test]
fn small_triangle_off_screen_to_left() {
    let mut builder = Builder::new();
    builder.move_to(PathPoint::new(-1.0, 0.0));
    builder.line_to(PathPoint::new(3.0, 0.0));
    builder.line_to(PathPoint::new(3.0, 3.0));
    builder.line_to(PathPoint::new(-1.0, 0.0));
    let path = builder.build();
    let flattened_path = Flattened::new(0.1, path.into_iter());

    let regions = region_list(flattened_path.filter_map(segment));

    println!("Regions: {:#?}", regions);

    assert_eq!(
        RegionList::regions(regions.hits),
        vec![
            Region::Boundary { x: -1, y: 0 },
            Region::Boundary { x: 0, y: 0 },
            Region::Boundary { x: 3, y: 0 },
            Region::Span {
                start_x: 1,
                end_x: 3,
                y: 0
            },
            Region::Boundary { x: 0, y: 1 },
            Region::Boundary { x: 1, y: 1 },
            Region::Boundary { x: 3, y: 1 },
            Region::Span {
                start_x: 2,
                end_x: 3,
                y: 1
            },
            Region::Boundary { x: 1, y: 2 },
            Region::Boundary { x: 2, y: 2 },
            Region::Boundary { x: 3, y: 2 }
        ]
    );
}

#[test]
fn triangle_regions() {
    let mut builder = Builder::new();
    builder.move_to(PathPoint::new(0.0, 0.0));
    builder.line_to(PathPoint::new(0.0, 5.0));
    builder.line_to(PathPoint::new(5.0, 0.0));
    let path = builder.build();
    let flattened_path = Flattened::new(0.1, path.into_iter());

    let regions = region_list(flattened_path.filter_map(segment));

    println!("Regions: {:#?}", regions);

    assert_eq!(
        RegionList::regions(regions.hits),
        vec![
            Region::Boundary { x: 0, y: 0 },
            Region::Boundary { x: 4, y: 0 },
            Region::Span {
                start_x: 1,
                end_x: 4,
                y: 0,
            },
            Region::Boundary { x: 0, y: 1 },
            Region::Boundary { x: 3, y: 1 },
            Region::Span {
                start_x: 1,
                end_x: 3,
                y: 1,
            },
            Region::Boundary { x: 0, y: 2 },
            Region::Boundary { x: 2, y: 2 },
            Region::Span {
                start_x: 1,
                end_x: 2,
                y: 2,
            },
            Region::Boundary { x: 0, y: 3 },
            Region::Boundary { x: 1, y: 3 },
            Region::Boundary { x: 0, y: 4 }
        ]
    );
}

#[test]
fn inverted_triangle_regions() {
    let mut builder = Builder::new();
    builder.move_to(PathPoint::new(0.0, 3.0));
    builder.line_to(PathPoint::new(4.0, 3.0));
    builder.line_to(PathPoint::new(2.0, 0.0));
    builder.line_to(PathPoint::new(0.0, 3.0));
    let path = builder.build();
    let flattened_path = Flattened::new(0.1, path.into_iter());

    let regions = region_list(flattened_path.filter_map(segment));

    println!("Regions: {:#?}", regions);

    assert_eq!(
        RegionList::regions(regions.hits),
        vec![
            Region::Boundary { x: 1, y: 0 },
            Region::Boundary { x: 2, y: 0 },
            Region::Boundary { x: 0, y: 1 },
            Region::Boundary { x: 1, y: 1 },
            Region::Boundary { x: 2, y: 1 },
            Region::Boundary { x: 3, y: 1 },
            Region::Boundary { x: 0, y: 2 },
            Region::Boundary { x: 3, y: 2 },
            Region::Span {
                start_x: 1,
                end_x: 3,
                y: 2,
            },
        ]
    );
}

#[test]
fn quadrilateral_regions() {
    let mut builder = Builder::new();
    builder.move_to(PathPoint::new(3.0, 2.0));
    builder.line_to(PathPoint::new(6.0, 4.0));
    builder.line_to(PathPoint::new(4.0, 7.0));
    builder.line_to(PathPoint::new(1.0, 5.0));
    builder.line_to(PathPoint::new(3.0, 2.0));
    let path = builder.build();
    let flattened_path = Flattened::new(0.1, path.into_iter());

    let regions = region_list(flattened_path.filter_map(segment));

    println!("Regions: {:#?}", regions);

    assert_eq!(
        RegionList::regions(regions.hits),
        vec![
            Region::Boundary { x: 2, y: 2 },
            Region::Boundary { x: 3, y: 2 },
            Region::Boundary { x: 4, y: 2 },
            Region::Boundary { x: 1, y: 3 },
            Region::Boundary { x: 2, y: 3 },
            Region::Boundary { x: 4, y: 3 },
            Region::Span {
                start_x: 3,
                end_x: 4,
                y: 3
            },
            Region::Boundary { x: 5, y: 3 },
            Region::Boundary { x: 1, y: 4 },
            Region::Boundary { x: 5, y: 4 },
            Region::Span {
                start_x: 2,
                end_x: 5,
                y: 4
            },
            Region::Boundary { x: 1, y: 5 },
            Region::Boundary { x: 2, y: 5 },
            Region::Boundary { x: 4, y: 5 },
            Region::Span {
                start_x: 3,
                end_x: 4,
                y: 5
            },
            Region::Boundary { x: 5, y: 5 },
            Region::Boundary { x: 2, y: 6 },
            Region::Boundary { x: 3, y: 6 },
            Region::Boundary { x: 4, y: 6 }
        ]
    );
}

#[test]
fn irregular_regions() {
    let mut builder = Builder::new();
    builder.move_to(PathPoint::new(6.18, 5.22));
    builder.line_to(PathPoint::new(5.06, 1.07));
    builder.line_to(PathPoint::new(2.33, 2.75));
    builder.line_to(PathPoint::new(1.69, 6.31));
    builder.line_to(PathPoint::new(6.18, 5.22));
    let path = builder.build();
    let flattened_path = Flattened::new(0.1, path.into_iter());

    let regions = region_list(flattened_path.filter_map(segment));

    println!("Regions: {:#?}", regions);

    assert_eq!(
        RegionList::regions(regions.hits),
        vec![
            Region::Boundary { x: 3, y: 1 },
            Region::Boundary { x: 4, y: 1 },
            Region::Boundary { x: 5, y: 1 },
            Region::Boundary { x: 2, y: 2 },
            Region::Boundary { x: 3, y: 2 },
            Region::Boundary { x: 5, y: 2 },
            Region::Span {
                start_x: 4,
                end_x: 5,
                y: 2
            },
            Region::Boundary { x: 2, y: 3 },
            Region::Boundary { x: 5, y: 3 },
            Region::Span {
                start_x: 3,
                end_x: 5,
                y: 3
            },
            Region::Boundary { x: 1, y: 4 },
            Region::Boundary { x: 2, y: 4 },
            Region::Boundary { x: 5, y: 4 },
            Region::Span {
                start_x: 3,
                end_x: 5,
                y: 4
            },
            Region::Boundary { x: 6, y: 4 },
            Region::Boundary { x: 1, y: 5 },
            Region::Boundary { x: 2, y: 5 },
            Region::Boundary { x: 3, y: 5 },
            Region::Boundary { x: 4, y: 5 },
            Region::Boundary { x: 5, y: 5 },
            Region::Boundary { x: 6, y: 5 },
            Region::Boundary { x: 1, y: 6 },
            Region::Boundary { x: 2, y: 6 }
        ]
    );
}

#[test]
fn irregular_regions_2() {
    let mut builder = Builder::new();
    builder.move_to(PathPoint::new(8.83, 7.46));
    builder.line_to(PathPoint::new(7.23, 1.53));
    builder.line_to(PathPoint::new(3.33, 3.93));
    builder.line_to(PathPoint::new(2.42, 9.02));
    builder.line_to(PathPoint::new(8.83, 7.46));
    let path = builder.build();
    let flattened_path = Flattened::new(0.1, path.into_iter());

    let regions = region_list(flattened_path.filter_map(segment));

    println!("Regions: {:#?}", regions);

    assert_eq!(
        RegionList::regions(regions.hits),
        vec![
            Region::Boundary { x: 6, y: 1 },
            Region::Boundary { x: 7, y: 1 },
            Region::Boundary { x: 4, y: 2 },
            Region::Boundary { x: 5, y: 2 },
            Region::Boundary { x: 6, y: 2 },
            Region::Boundary { x: 7, y: 2 },
            Region::Boundary { x: 3, y: 3 },
            Region::Boundary { x: 4, y: 3 },
            Region::Boundary { x: 7, y: 3 },
            Region::Span {
                start_x: 5,
                end_x: 7,
                y: 3
            },
            Region::Boundary { x: 3, y: 4 },
            Region::Boundary { x: 7, y: 4 },
            Region::Span {
                start_x: 4,
                end_x: 7,
                y: 4
            },
            Region::Boundary { x: 8, y: 4 },
            Region::Boundary { x: 2, y: 5 },
            Region::Boundary { x: 3, y: 5 },
            Region::Boundary { x: 8, y: 5 },
            Region::Span {
                start_x: 4,
                end_x: 8,
                y: 5
            },
            Region::Boundary { x: 2, y: 6 },
            Region::Boundary { x: 8, y: 6 },
            Region::Span {
                start_x: 3,
                end_x: 8,
                y: 6
            },
            Region::Boundary { x: 2, y: 7 },
            Region::Boundary { x: 6, y: 7 },
            Region::Span {
                start_x: 3,
                end_x: 6,
                y: 7
            },
            Region::Boundary { x: 7, y: 7 },
            Region::Boundary { x: 8, y: 7 },
            Region::Boundary { x: 2, y: 8 },
            Region::Boundary { x: 3, y: 8 },
            Region::Boundary { x: 4, y: 8 },
            Region::Boundary { x: 5, y: 8 },
            Region::Boundary { x: 6, y: 8 },
            Region::Boundary { x: 2, y: 9 }
        ]
    );
}

#[test]
fn self_intersecting_pyramid() {
    let mut builder = Builder::new();
    builder.move_to(PathPoint::new(3.0, 5.0));
    builder.line_to(PathPoint::new(5.0, 9.0));
    builder.line_to(PathPoint::new(7.0, 2.0));
    builder.line_to(PathPoint::new(9.0, 9.0));
    builder.line_to(PathPoint::new(11.0, 5.0));
    builder.line_to(PathPoint::new(3.0, 5.0));
    let path = builder.build();
    let flattened_path = Flattened::new(0.1, path.into_iter());

    let regions = region_list(flattened_path.filter_map(segment));

    println!("Regions: {:#?}", regions);

    assert_eq!(
        RegionList::regions(regions.hits),
        vec![
            Region::Boundary { x: 6, y: 2 },
            Region::Boundary { x: 7, y: 2 },
            Region::Boundary { x: 6, y: 3 },
            Region::Boundary { x: 7, y: 3 },
            Region::Boundary { x: 6, y: 4 },
            Region::Boundary { x: 7, y: 4 },
            Region::Boundary { x: 3, y: 5 },
            Region::Boundary { x: 5, y: 5 },
            Region::Span {
                start_x: 4,
                end_x: 5,
                y: 5
            },
            Region::Boundary { x: 6, y: 5 },
            Region::Boundary { x: 7, y: 5 },
            Region::Boundary { x: 8, y: 5 },
            Region::Boundary { x: 10, y: 5 },
            Region::Span {
                start_x: 9,
                end_x: 10,
                y: 5
            },
            Region::Boundary { x: 3, y: 6 },
            Region::Boundary { x: 5, y: 6 },
            Region::Span {
                start_x: 4,
                end_x: 5,
                y: 6
            },
            Region::Boundary { x: 8, y: 6 },
            Region::Boundary { x: 10, y: 6 },
            Region::Span {
                start_x: 9,
                end_x: 10,
                y: 6
            },
            Region::Boundary { x: 4, y: 7 },
            Region::Boundary { x: 5, y: 7 },
            Region::Boundary { x: 8, y: 7 },
            Region::Boundary { x: 9, y: 7 },
            Region::Boundary { x: 4, y: 8 },
            Region::Boundary { x: 5, y: 8 },
            Region::Boundary { x: 8, y: 8 },
            Region::Boundary { x: 9, y: 8 }
        ]
    );
}

#[test]
fn low_res_circle() {
    let mut builder = Builder::new();
    builder.move_to(PathPoint::new(5., 0.));
    builder.line_to(PathPoint::new(0.67, 2.5));
    builder.line_to(PathPoint::new(0.67, 7.5));
    builder.line_to(PathPoint::new(5., 10.));
    builder.line_to(PathPoint::new(9.33, 7.5));
    builder.line_to(PathPoint::new(9.33, 2.5));
    builder.line_to(PathPoint::new(5., 0.));
    let path = builder.build();
    let flattened_path = Flattened::new(0.1, path.into_iter());

    let regions = region_list(flattened_path.filter_map(segment));

    println!("Regions: {:#?}", regions);

    assert_eq!(
        RegionList::regions(regions.hits),
        vec![
            Region::Boundary { x: 3, y: 0 },
            Region::Boundary { x: 4, y: 0 },
            Region::Boundary { x: 5, y: 0 },
            Region::Boundary { x: 6, y: 0 },
            //
            Region::Boundary { x: 1, y: 1 },
            Region::Boundary { x: 2, y: 1 },
            Region::Boundary { x: 3, y: 1 },
            Region::Boundary { x: 6, y: 1 },
            Region::Span {
                start_x: 4,
                end_x: 6,
                y: 1
            },
            Region::Boundary { x: 7, y: 1 },
            Region::Boundary { x: 8, y: 1 },
            //
            Region::Boundary { x: 0, y: 2 },
            Region::Boundary { x: 1, y: 2 },
            Region::Boundary { x: 8, y: 2 },
            Region::Span {
                start_x: 2,
                end_x: 8,
                y: 2,
            },
            Region::Boundary { x: 9, y: 2 },
            //
            Region::Boundary { x: 0, y: 3 },
            Region::Boundary { x: 9, y: 3 },
            Region::Span {
                start_x: 1,
                end_x: 9,
                y: 3,
            },
            //
            Region::Boundary { x: 0, y: 4 },
            Region::Boundary { x: 9, y: 4 },
            Region::Span {
                start_x: 1,
                end_x: 9,
                y: 4,
            },
            //
            Region::Boundary { x: 0, y: 5 },
            Region::Boundary { x: 9, y: 5 },
            Region::Span {
                start_x: 1,
                end_x: 9,
                y: 5,
            },
            //
            Region::Boundary { x: 0, y: 6 },
            Region::Boundary { x: 9, y: 6 },
            Region::Span {
                start_x: 1,
                end_x: 9,
                y: 6,
            },
            //
            Region::Boundary { x: 0, y: 7 },
            Region::Boundary { x: 1, y: 7 },
            Region::Boundary { x: 8, y: 7 },
            Region::Span {
                start_x: 2,
                end_x: 8,
                y: 7,
            },
            Region::Boundary { x: 9, y: 7 },
            //
            Region::Boundary { x: 1, y: 8 },
            Region::Boundary { x: 2, y: 8 },
            Region::Boundary { x: 3, y: 8 },
            Region::Boundary { x: 6, y: 8 },
            Region::Span {
                start_x: 4,
                end_x: 6,
                y: 8,
            },
            Region::Boundary { x: 7, y: 8 },
            Region::Boundary { x: 8, y: 8 },
            //
            Region::Boundary { x: 3, y: 9 },
            Region::Boundary { x: 4, y: 9 },
            Region::Boundary { x: 5, y: 9 },
            Region::Boundary { x: 6, y: 9 },
        ]
    );
}

#[test]
fn subpixel_adjacency() {
    let mut builder = Builder::new();
    builder.move_to(PathPoint::new(0., 0.));
    builder.line_to(PathPoint::new(0.25, 0.25));
    builder.line_to(PathPoint::new(0.5, 0.5));
    builder.line_to(PathPoint::new(0.75, 0.75));
    builder.line_to(PathPoint::new(1.0, 1.0));
    builder.line_to(PathPoint::new(5.0, 1.0));
    builder.line_to(PathPoint::new(5.0, 0.0));
    let path = builder.build();
    let flattened_path = Flattened::new(0.1, path.into_iter());

    let regions = region_list(flattened_path.filter_map(segment));

    println!("Regions: {:#?}", regions);

    assert_eq!(
        RegionList::regions(regions.hits),
        vec![
            Region::Boundary { x: 0, y: 0 },
            Region::Boundary { x: 5, y: 0 },
            Region::Span {
                start_x: 1,
                end_x: 5,
                y: 0
            }
        ]
    );
}

#[test]
fn double_ended_subpixel_adjacency() {
    let mut builder = Builder::new();
    builder.move_to(PathPoint::new(0., 0.));
    builder.line_to(PathPoint::new(0.25, 0.25));
    builder.line_to(PathPoint::new(0.5, 0.5));
    builder.line_to(PathPoint::new(0.75, 0.75));
    builder.line_to(PathPoint::new(1.0, 1.0));
    builder.line_to(PathPoint::new(4.0, 1.0));
    builder.line_to(PathPoint::new(4.25, 0.75));
    builder.line_to(PathPoint::new(4.5, 0.5));
    builder.line_to(PathPoint::new(4.75, 0.25));
    builder.line_to(PathPoint::new(5.0, 0.0));
    let path = builder.build();
    let flattened_path = Flattened::new(0.1, path.into_iter());

    let regions = region_list(flattened_path.filter_map(segment));

    println!("Regions: {:#?}", regions);

    assert_eq!(
        RegionList::regions(regions.hits),
        vec![
            Region::Boundary { x: 0, y: 0 },
            Region::Boundary { x: 4, y: 0 },
            Region::Span {
                start_x: 1,
                end_x: 4,
                y: 0
            }
        ]
    );
}

#[test]
fn complex_subpixel_adjacency() {
    let mut builder = Builder::new();
    builder.move_to(PathPoint::new(0., 0.));
    builder.line_to(PathPoint::new(1.0, 0.1));
    builder.line_to(PathPoint::new(2.0, 1.0));
    builder.line_to(PathPoint::new(3.0, 1.0));
    builder.line_to(PathPoint::new(4.0, 0.5));
    builder.line_to(PathPoint::new(5.0, 1.0));
    builder.line_to(PathPoint::new(5.0, 0.0));
    builder.line_to(PathPoint::new(0., 0.));
    let path = builder.build();
    let flattened_path = Flattened::new(0.1, path.into_iter());

    let regions = region_list(flattened_path.filter_map(segment));

    println!("Regions: {:#?}", regions);

    assert_eq!(
        RegionList::regions(regions.hits),
        vec![
            Region::Boundary { x: 0, y: 0 },
            Region::Boundary { x: 1, y: 0 },
            Region::Boundary { x: 3, y: 0 },
            Region::Span {
                start_x: 2,
                end_x: 3,
                y: 0
            },
            Region::Boundary { x: 4, y: 0 },
            Region::Boundary { x: 5, y: 0 },
        ]
    );
}

#[test]
fn simple_quadratic() {
    let mut builder = Builder::new();
    builder.move_to(PathPoint::new(0., 0.));
    builder.quadratic_bezier_to(PathPoint::new(3., 3.), PathPoint::new(2., 0.));
    let path = builder.build();
    let flattened_path = Flattened::new(0.1, path.into_iter());

    let regions = region_list(flattened_path.filter_map(segment));

    println!("Regions: {:#?}", regions);

    assert_eq!(
        RegionList::regions(regions.hits),
        vec![
            Region::Boundary { x: 0, y: 0 },
            Region::Boundary { x: 1, y: 0 },
            Region::Boundary { x: 2, y: 0 },
            Region::Boundary { x: 1, y: 1 },
            Region::Boundary { x: 2, y: 1 },
        ]
    );
}

#[test]
fn quadratic_triangle() {
    let mut builder = Builder::new();
    builder.move_to(PathPoint::new(0., 0.));
    builder.quadratic_bezier_to(PathPoint::new(0., 4.), PathPoint::new(2., 2.));
    builder.line_to(PathPoint::new(2., 0.));
    let path = builder.build();
    let flattened_path = Flattened::new(0.1, path.into_iter());

    let regions = region_list(flattened_path.filter_map(segment));

    println!("Regions: {:#?}", regions);

    assert_eq!(
        RegionList::regions(regions.hits),
        vec![
            Region::Boundary { x: 0, y: 0 },
            Region::Boundary { x: 2, y: 0 },
            Region::Span {
                start_x: 1,
                end_x: 2,
                y: 0
            },
            Region::Boundary { x: 0, y: 1 },
            Region::Boundary { x: 2, y: 1 },
            Region::Span {
                start_x: 1,
                end_x: 2,
                y: 1
            },
            Region::Boundary { x: 0, y: 2 },
            Region::Boundary { x: 1, y: 2 },
        ]
    );
}

#[test]
fn cubic_triangle() {
    let mut builder = Builder::new();
    builder.move_to(PathPoint::new(0., 0.));
    builder.quadratic_bezier_to(PathPoint::new(0., 4.), PathPoint::new(2., 2.));
    builder.cubic_bezier_to(
        PathPoint::new(2.5, 1.5),
        PathPoint::new(1.5, 0.5),
        PathPoint::new(2., 0.),
    );
    let path = builder.build();
    let flattened_path = Flattened::new(0.1, path.into_iter());

    let regions = region_list(flattened_path.filter_map(segment));

    println!("Regions: {:#?}", regions);

    assert_eq!(
        RegionList::regions(regions.hits),
        vec![
            Region::Boundary { x: 0, y: 0 },
            Region::Boundary { x: 1, y: 0 },
            Region::Boundary { x: 0, y: 1 },
            Region::Boundary { x: 2, y: 1 },
            Region::Span {
                start_x: 1,
                end_x: 2,
                y: 1
            },
            Region::Boundary { x: 0, y: 2 },
            Region::Boundary { x: 1, y: 2 },
        ]
    );
}

#[test]
fn cubic_blob() {
    let mut builder = Builder::new();
    builder.move_to(PathPoint::new(0., 0.));
    builder.quadratic_bezier_to(PathPoint::new(0., 20.), PathPoint::new(14., 16.));
    builder.cubic_bezier_to(
        PathPoint::new(20., 12.),
        PathPoint::new(8., 4.),
        PathPoint::new(14., 0.),
    );
    let path = builder.build();
    let flattened_path = Flattened::new(0.1, path.into_iter());

    let regions = region_list(flattened_path.filter_map(segment));

    println!("Regions: {:#?}", regions);

    assert_eq!(
        RegionList::regions(regions.hits),
        vec![
            Region::Boundary { x: 0, y: 0 },
            Region::Boundary { x: 12, y: 0 },
            Region::Span {
                start_x: 1,
                end_x: 12,
                y: 0
            },
            Region::Boundary { x: 13, y: 0 },
            Region::Boundary { x: 0, y: 1 },
            Region::Boundary { x: 12, y: 1 },
            Region::Span {
                start_x: 1,
                end_x: 12,
                y: 1,
            },
            Region::Boundary { x: 0, y: 2 },
            Region::Boundary { x: 12, y: 2 },
            Region::Span {
                start_x: 1,
                end_x: 12,
                y: 2,
            },
            Region::Boundary { x: 0, y: 3 },
            Region::Boundary { x: 12, y: 3 },
            Region::Span {
                start_x: 1,
                end_x: 12,
                y: 3,
            },
            Region::Boundary { x: 0, y: 4 },
            Region::Boundary { x: 12, y: 4 },
            Region::Span {
                start_x: 1,
                end_x: 12,
                y: 4,
            },
            Region::Boundary { x: 0, y: 5 },
            Region::Boundary { x: 12, y: 5 },
            Region::Span {
                start_x: 1,
                end_x: 12,
                y: 5,
            },
            Region::Boundary { x: 13, y: 5 },
            Region::Boundary { x: 0, y: 6 },
            Region::Boundary { x: 13, y: 6 },
            Region::Span {
                start_x: 1,
                end_x: 13,
                y: 6,
            },
            Region::Boundary { x: 0, y: 7 },
            Region::Boundary { x: 13, y: 7 },
            Region::Span {
                start_x: 1,
                end_x: 13,
                y: 7,
            },
            Region::Boundary { x: 0, y: 8 },
            Region::Boundary { x: 1, y: 8 },
            Region::Boundary { x: 14, y: 8 },
            Region::Span {
                start_x: 2,
                end_x: 14,
                y: 8,
            },
            Region::Boundary { x: 1, y: 9 },
            Region::Boundary { x: 14, y: 9 },
            Region::Span {
                start_x: 2,
                end_x: 14,
                y: 9,
            },
            Region::Boundary { x: 1, y: 10 },
            Region::Boundary { x: 14, y: 10 },
            Region::Span {
                start_x: 2,
                end_x: 14,
                y: 10,
            },
            Region::Boundary { x: 15, y: 10 },
            Region::Boundary { x: 1, y: 11 },
            Region::Boundary { x: 2, y: 11 },
            Region::Boundary { x: 15, y: 11 },
            Region::Span {
                start_x: 3,
                end_x: 15,
                y: 11,
            },
            Region::Boundary { x: 2, y: 12 },
            Region::Boundary { x: 15, y: 12 },
            Region::Span {
                start_x: 3,
                end_x: 15,
                y: 12,
            },
            Region::Boundary { x: 2, y: 13 },
            Region::Boundary { x: 3, y: 13 },
            Region::Boundary { x: 15, y: 13 },
            Region::Span {
                start_x: 4,
                end_x: 15,
                y: 13,
            },
            Region::Boundary { x: 3, y: 14 },
            Region::Boundary { x: 4, y: 14 },
            Region::Boundary { x: 15, y: 14 },
            Region::Span {
                start_x: 5,
                end_x: 15,
                y: 14,
            },
            Region::Boundary { x: 4, y: 15 },
            Region::Boundary { x: 5, y: 15 },
            Region::Boundary { x: 6, y: 15 },
            Region::Boundary { x: 14, y: 15 },
            Region::Span {
                start_x: 7,
                end_x: 14,
                y: 15,
            },
            Region::Boundary { x: 15, y: 15 },
            Region::Boundary { x: 6, y: 16 },
            Region::Boundary { x: 7, y: 16 },
            Region::Boundary { x: 8, y: 16 },
            Region::Boundary { x: 9, y: 16 },
            Region::Boundary { x: 10, y: 16 },
            Region::Boundary { x: 11, y: 16 },
            Region::Boundary { x: 12, y: 16 },
            Region::Boundary { x: 13, y: 16 },
        ]
    );
}
