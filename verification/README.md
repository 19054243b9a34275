# vyges-gds-view

Headless GDS layout viewer: a flattened layout cell in, a self-contained SVG
(or a bounded PNG thumbnail) out — every shape coloured by its layer, a layer
legend, and an optional overlay of violation boxes.

The library in `src/` is written in Verus; every function carries a contract
and is proved against it.

- `svg` — the SVG document, exactly: frame, scale, one polygon or polyline per
  drawn shape, marks on top, legend.
- `png`, `raster` — the PNG thumbnail: an even-odd scanline rasterizer with
  alpha blending, and a PNG encoder (stored DEFLATE, CRC-32, Adler-32) with
  its decoding laws.
- `binary64`, `sfloat` — binary64 arithmetic (rounding, `+ - * /`, square root,
  `floor`/`ceil`/`round`) carried out exactly on integers, so that pixel
  coordinates and printed numbers match what `f64` gives.
- `text` — decimal and fixed-point formatting, XML escaping.
- `args`, `marks`, `scan` — command-line values, the marks file, and the
  string scanning (`trim`, `split`, `str::parse` of integers) they rest on.
- `geom`, `gds` — rectangles, bounding boxes, and the flattened cell.
- `summary` — the one-line summary of a view (drawn shapes, distinct layers,
  output).

`app/main.rs` is the command-line program: it loads and flattens the layout
with `vyges-layout`, reads the marks file, emits the summary through
`vyges-events`, and writes the output.

Laws proved alongside the functions include: a layer filter equals dropping
the other layers' shapes (SVG and PNG), every drawn vertex and mark corner
lands in the drawing area, a higher point never lands lower (Y flipped),
the thumbnail fits the `max_dim`-pixel square, blending with any opacity
in [0, 1] lands between the old byte and the colour, within half a unit
plus `2^-36` of the exact mix, parsed marks have ordered corners, a parsed
`--window` is never empty, escaped labels hold no markup and unescape back
to the label, every `&` of escaped text begins an entity, the PNG palette is
the SVG palette as RGB, every document is one `<svg>` element, an encoded
image decodes back to its width, height and pixels, the zlib stream has
its stored-block layout (length, final flags, `NLEN == !LEN`, Adler-32
trailer), and marks texts read one after another give the marks of the
first followed by those of the second.
