//! Raster region search and enumeration.
//!
//! A path, flattened to line segments, outlines a raster area. `RegionList`
//! finds the pixels that the outline passes through and, by counting edges row
//! by row, the spans of pixels between them that are completely covered. It
//! turns both into commands that shade them.

pub mod arithmetic;
pub mod edge_laws;
pub mod geometry;
pub mod grid_laws;
pub mod grid_lines;
pub mod hits;
pub mod inside;
pub mod laws;
pub mod move_laws;
pub mod number_laws;
pub mod ordered;
pub mod outline;
pub mod outline_laws;
pub mod pixel_laws;
pub mod region_list;
pub mod regions;
pub mod rounding;
pub mod row_laws;
pub mod scalar;
pub mod span_laws;
pub mod trace;
pub mod trace_laws;

pub use crate::geometry::{Point, Segment};
pub use crate::grid_lines::{Axis, Bounds};
pub use crate::hits::{Hit, RawHit};
pub use crate::ordered::OrderedSet;
pub use crate::outline::Traced;
pub use crate::region_list::{RegionList, ShadeCommand};
pub use crate::regions::Region;
pub use crate::scalar::Scalar;
