//! The raster area of a path, and the commands that shade it.
use crate::arithmetic;
use crate::geometry::{Point, Segment};
use crate::hits::Hit;
use crate::ordered;
use crate::ordered::OrderedSet;
use crate::regions;
use crate::regions::Region;
use crate::scalar::Scalar;
use core::ops::Range;
use vstd::prelude::*;

verus! {

/// The pixels that the outline of a path passes through.
#[derive(Debug)]
pub struct RegionList {
    /// One hit for each such pixel, by row and then by column.
    pub hits: OrderedSet<Hit>,
    /// The segments of the path that are not level.
    pub segments: Vec<Segment>,
}

impl Default for RegionList {
    fn default() -> (list: RegionList)
        ensures
            list.hits@ == Seq::<Hit>::empty(),
            list.segments@ == Seq::<Segment>::empty(),
    {
        RegionList { hits: OrderedSet::new(), segments: Vec::new() }
    }
}

/// A command to shade a pixel.
#[derive(Debug, PartialEq)]
#[allow(inconsistent_fields)]
pub enum ShadeCommand {
    /// A command to shade a pixel at the boundary of a path's raster area.
    /// Coverage indicates what part of the pixel is covered by the raster
    /// area. This usually maps to the alpha channel.
    Boundary { x: isize, y: isize, coverage: Scalar },
    /// A command to shade a span of the framebuffer. Spans are completely
    /// covered in the raster area, so the alpha channel value for spans is
    /// usually one.
    Span { x: Range<isize>, y: isize },
}

impl Clone for ShadeCommand {
    fn clone(&self) -> (r: ShadeCommand)
        ensures
            r == *self,
    {
        match self {
            ShadeCommand::Boundary { x, y, coverage } => ShadeCommand::Boundary {
                x: *x,
                y: *y,
                coverage: *coverage,
            },
            ShadeCommand::Span { x, y } => ShadeCommand::Span {
                x: Range { start: x.start, end: x.end },
                y: *y,
            },
        }
    }
}

/// `corner` is the point (x, y), as near as numbers come to it.
pub open spec fn is_corner(corner: Point, x: isize, y: isize) -> bool {
    arithmetic::is_number(corner.x, x) && arithmetic::is_number(corner.y, y)
}

/// `command` shades `region`: a boundary pixel by a coverage that `covered`
/// allows for its corner, a span as it is.
pub open spec fn shades(
    command: ShadeCommand,
    region: Region,
    covered: spec_fn(Point, Scalar) -> bool,
) -> bool {
    match region {
        Region::Boundary { x, y } => {
            &&& command matches ShadeCommand::Boundary { x: cx, y: cy, coverage: c }
            &&& cx == x && cy == y
            &&& exists|corner: Point| #[trigger] is_corner(corner, x, y) && covered(corner, c)
        },
        Region::Span { start_x, end_x, y } => command == (ShadeCommand::Span {
            x: Range { start: start_x, end: end_x },
            y,
        }),
    }
}

/// The commands shade the regions of `hits`, one for each and in their order,
/// by coverages that `covered` allows.
pub open spec fn shade_hits(
    commands: Seq<ShadeCommand>,
    hits: Seq<Hit>,
    covered: spec_fn(Point, Scalar) -> bool,
) -> bool {
    &&& commands.len() == regions::regions_of(hits, hits.len() as int).len()
    &&& forall|k: int|
        0 <= k < commands.len() ==> shades(
            #[trigger] commands[k],
            regions::regions_of(hits, hits.len() as int)[k],
            covered,
        )
}

impl RegionList {
    /// The commands that shade the raster area, one for each region and in
    /// their order. `coverage` gives the part of a pixel that the path with
    /// the given segments covers, from the corner of the pixel.
    pub fn shade_commands<D, F>(self, sample_depth: D, coverage: F) -> (commands: Vec<
        ShadeCommand,
    >) where D: Copy, F: Fn(Point, D, &Vec<Segment>) -> Scalar
        requires
            forall|corner: Point| #[trigger]
                call_requires(coverage, (corner, sample_depth, &self.segments)),
        ensures
            shade_hits(
                commands@,
                self.hits@,
                |corner: Point, c: Scalar|
                    call_ensures(coverage, (corner, sample_depth, &self.segments), c),
            ),
            ordered::increasing(self.hits@),
    {
        let ghost covered = |corner: Point, c: Scalar|
            call_ensures(coverage, (corner, sample_depth, &self.segments), c);
        let segments: Vec<Segment> = self.segments;
        let regions: Vec<Region> = RegionList::regions(self.hits);
        let mut commands: Vec<ShadeCommand> = Vec::new();
        let mut i: usize = 0;
        while i < regions.len()
            invariant
                i <= regions@.len(),
                commands@.len() == i,
                covered == (|corner: Point, c: Scalar|
                    call_ensures(coverage, (corner, sample_depth, &segments), c)),
                forall|corner: Point| #[trigger]
                    call_requires(coverage, (corner, sample_depth, &segments)),
                forall|j: int|
                    0 <= j < i ==> shades(
                        #[trigger] commands@[j],
                        regions@[j],
                        covered,
                    ),
            decreases regions@.len() - i,
        {
            match regions[i] {
                Region::Boundary { x, y } => {
                    let corner: Point = Point {
                        x: Scalar::from_isize(x),
                        y: Scalar::from_isize(y),
                    };
                    let c: Scalar = coverage(corner, sample_depth, &segments);
                    commands.push(ShadeCommand::Boundary { x, y, coverage: c });
                    assert(is_corner(corner, x, y) && covered(corner, c));
                },
                Region::Span { start_x, end_x, y } => {
                    commands.push(
                        ShadeCommand::Span { x: Range { start: start_x, end: end_x }, y },
                    );
                },
            }
            i = i + 1;
        }
        commands
    }
}

} // verus!
