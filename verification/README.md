# amicola

Finds the regions of the raster area that a path outlines and turns them into
shading commands.

A path comes as line segments. `RegionList::from` cuts each segment where it
crosses the lines of the pixel grid and keeps one hit for every pixel that the
outline passes through. Where pixels lie between two hits of a row, it also
finds out whether they are completely covered: whether, at every height of the
row, an odd number of edges lies to their left. `RegionList::regions` walks the
hits row by row and counts the edges it meets. A gap after an odd number of
edges is a span, unless it is known to be not completely covered.
`RegionList::shade_commands` gives a command for each boundary pixel and each
span.

- `src/` is the library, verified with Verus. Coordinates are single-precision
  numbers held as bit patterns (`scalar`, `rounding`, `arithmetic`), so that
  every comparison, sum and rounding is part of the proofs. `ordered` holds the
  sets that hits are kept in, `grid_lines` and `trace` the crossings with the
  grid, `inside` the test for complete coverage, `outline` the step from
  crossings to hits, `regions` and `region_list` the regions and the commands.
  `laws`, `span_laws`, `outline_laws` and `trace_laws` state what holds of region
  lists as a whole: spans are completely covered, no pixel is shaded twice, each
  hit is one boundary pixel, a hit is that of the first segment in its pixel,
  level segments change nothing, the order of the segments does not change which
  pixels are hit, and more.
- `app/` joins the library to lyon's line segments and native floats.
- `tests/` runs the library on paths, and holds its arithmetic and its sets
  against native floats and `BTreeSet`.
