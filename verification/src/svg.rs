//! Render a flattened GDS cell to a single self-contained SVG document.
//!
//! Design geometry is in database units; it is fitted into a fixed pixel
//! canvas (aspect preserved, Y flipped so up is up) with a layer legend on the
//! right.  Shapes are filled translucently with a solid same-colour stroke so
//! overlaps stay visible.  Violation rectangles are drawn last, on top, in red.
//!
//! Pixel coordinates are binary64 values computed exactly as `f64` arithmetic
//! computes them (see `binary64`), then printed as `format!` prints them.

use vstd::prelude::*;
use crate::binary64::{
    Dbl, P120, P52, P53, add_exec, add_spec, blen, div_nat, from_u64, le, le_exec, lemma_add_at,
    lemma_blen_unique, lemma_int_exact, lemma_le_total, lemma_mul_int, lemma_p2_add,
    lemma_p2_consts, lemma_p2_le, lemma_p2_pos, lemma_round_bits_shape, lemma_round_div_le,
    lemma_le_antisym, lemma_round_ge, lemma_round_le, lemma_round_mono, lemma_round_wf, max_exec, max_spec, min_exec, min_spec,
    mul_exec, mul_spec, p2, round_bits, round_div, scaled, sub_exec, sub_spec, val_ge, val_le,
};
use crate::gds::{Cell, Element};
use crate::geom::{Rect, bbox_of, grow_exec, lemma_bbox_holds, lemma_bbox_push};
use crate::text::{
    dec, esc, fmt_dbl, push_dbl, push_dec, push_esc, push_i64, push_str, signed_dec,
    string_from_chars,
};

verus! {

/// A violation or region to box on top of the layout, in database units.
pub struct Mark {
    pub r: Rect,
    pub label: String,
}

/// Whether a layer is drawn under an optional layer filter.
pub open spec fn keeps_layer(layer: i16, layers: Option<&[i16]>) -> bool {
    match layers {
        Some(ls) => ls@.contains(layer),
        None => true,
    }
}

/// `layers.map(|ls| ls.contains(&layer)).unwrap_or(true)`.
pub fn keep(layer: i16, layers: Option<&[i16]>) -> (b: bool)
    ensures
        b == keeps_layer(layer, layers),
{
    match layers {
        None => true,
        Some(ls) => {
            let mut i: usize = 0;
            while i < ls.len()
                invariant
                    layers == Some(ls),
                    i <= ls@.len(),
                    forall|j: int| 0 <= j < i ==> ls@[j] != layer,
                decreases ls@.len() - i,
            {
                if ls[i] == layer {
                    assert(ls@[i as int] == layer);
                    return true;
                }
                i = i + 1;
            }
            false
        },
    }
}

/// Palette slot of a layer: the layer converted to a 64-bit `usize` (negative
/// layers wrap around `2^64`) modulo the 14 palette entries.
pub open spec fn palette_index(layer: i16) -> int {
    if layer >= 0 {
        layer as int % 14
    } else {
        (0x1_0000_0000_0000_0000int + layer as int) % 14
    }
}

/// The fixed, high-contrast palette.
pub open spec fn palette(i: int) -> &'static str {
    if i == 0 {
        "#4e79a7"
    } else if i == 1 {
        "#f28e2b"
    } else if i == 2 {
        "#59a14f"
    } else if i == 3 {
        "#e15759"
    } else if i == 4 {
        "#b07aa1"
    } else if i == 5 {
        "#76b7b2"
    } else if i == 6 {
        "#edc948"
    } else if i == 7 {
        "#ff9da7"
    } else if i == 8 {
        "#9c755f"
    } else if i == 9 {
        "#bab0ac"
    } else if i == 10 {
        "#1b9e77"
    } else if i == 11 {
        "#d95f02"
    } else if i == 12 {
        "#7570b3"
    } else {
        "#e7298a"
    }
}

/// The colour of a layer.
pub fn color(layer: i16) -> (c: &'static str)
    ensures
        c == palette(palette_index(layer)),
{
    let l = layer as i32;
    let i: i32 = if l >= 0 {
        l % 14
    } else {
        (l + 32776) % 14
    };
    assert(i == palette_index(layer));
    if i == 0 {
        "#4e79a7"
    } else if i == 1 {
        "#f28e2b"
    } else if i == 2 {
        "#59a14f"
    } else if i == 3 {
        "#e15759"
    } else if i == 4 {
        "#b07aa1"
    } else if i == 5 {
        "#76b7b2"
    } else if i == 6 {
        "#edc948"
    } else if i == 7 {
        "#ff9da7"
    } else if i == 8 {
        "#9c755f"
    } else if i == 9 {
        "#bab0ac"
    } else if i == 10 {
        "#1b9e77"
    } else if i == 11 {
        "#d95f02"
    } else if i == 12 {
        "#7570b3"
    } else {
        "#e7298a"
    }
}

/// An element that is drawn under the layer filter.
pub open spec fn drawn(e: Element, layers: Option<&[i16]>) -> bool {
    e.is_shape() && keeps_layer(e.layer_of(), layers)
}

/// Every vertex of drawn geometry, element by element.
pub open spec fn drawn_points(es: Seq<Element>, layers: Option<&[i16]>) -> Seq<(i32, i32)>
    decreases es.len(),
{
    if es.len() == 0 {
        seq![]
    } else {
        drawn_points(es.drop_last(), layers) + if drawn(es.last(), layers) {
            es.last().points()
        } else {
            seq![]
        }
    }
}

/// Every corner of every mark's boundary ring.
pub open spec fn mark_points(ms: Seq<Mark>) -> Seq<(i32, i32)>
    decreases ms.len(),
{
    if ms.len() == 0 {
        seq![]
    } else {
        mark_points(ms.drop_last()) + ms.last().r.boundary()
    }
}

/// The region fitted into the canvas: the bounding box of the drawn geometry
/// and the marks, or the unit square when there is nothing.
pub open spec fn frame(es: Seq<Element>, layers: Option<&[i16]>, ms: Seq<Mark>) -> Rect {
    match bbox_of(drawn_points(es, layers) + mark_points(ms)) {
        Some(b) => b,
        None => Rect { x0: 0, y0: 0, x1: 1, y1: 1 },
    }
}

/// An integer as a binary64 value.
#[verifier::opaque]
pub open spec fn num(n: int) -> Dbl {
    round_bits(n as nat, 0)
}

pub open spec fn span_w(f: Rect) -> int {
    if f.x1 - f.x0 >= 1 {
        f.x1 - f.x0
    } else {
        1
    }
}

pub open spec fn span_h(f: Rect) -> int {
    if f.y1 - f.y0 >= 1 {
        f.y1 - f.y0
    } else {
        1
    }
}

/// Pixels per database unit: 760 over the larger span.
pub open spec fn scale(f: Rect) -> Dbl {
    round_div(760, (if span_w(f) >= span_h(f) { span_w(f) } else { span_h(f) }) as nat)
}

/// Stroke width: `(760 / 400).max(0.6)`.
pub open spec fn stroke_w() -> Dbl {
    max_spec(round_div(760, 400), round_div(3, 5))
}

/// Canvas x of a design x: `16 + (x - x0) * s`.
pub open spec fn map_x(f: Rect, x: int) -> Dbl {
    add_spec(num(16), mul_spec(num(x - f.x0), scale(f)))
}

/// Canvas y of a design y, flipped: `16 + (y1 - y) * s`.
pub open spec fn map_y(f: Rect, y: int) -> Dbl {
    add_spec(num(16), mul_spec(num(f.y1 - y), scale(f)))
}

/// `"{px:.1},{py:.1}"` of a mapped vertex.
pub open spec fn pt_text(f: Rect, p: (i32, i32)) -> Seq<char> {
    fmt_dbl(map_x(f, p.0 as int), 1) + seq![','] + fmt_dbl(map_y(f, p.1 as int), 1)
}

/// The mapped vertices separated by single spaces.
pub open spec fn poly_text(f: Rect, ps: Seq<(i32, i32)>) -> Seq<char>
    decreases ps.len(),
{
    if ps.len() == 0 {
        seq![]
    } else if ps.len() == 1 {
        pt_text(f, ps[0])
    } else {
        poly_text(f, ps.drop_last()) + seq![' '] + pt_text(f, ps.last())
    }
}

/// Stroke width of a path: its width in pixels, at least the outline width.
pub open spec fn path_w(f: Rect, width: i32) -> Dbl {
    if width > 0 {
        max_spec(mul_spec(num(width as int), scale(f)), stroke_w())
    } else {
        stroke_w()
    }
}

/// The SVG line of one element (nothing when it is not drawn).
pub open spec fn elem_line(e: Element, layers: Option<&[i16]>, f: Rect) -> Seq<char> {
    if !drawn(e, layers) {
        seq![]
    } else {
        let c = palette(palette_index(e.layer_of()))@;
        match e {
            Element::Path { width, pts, .. } => "<polyline points=\""@ + poly_text(f, pts@)
                + "\" fill=\"none\" stroke=\""@ + c + "\" stroke-width=\""@ + fmt_dbl(
                path_w(f, width),
                2,
            ) + "\" stroke-opacity=\"0.6\" stroke-linecap=\"round\"/>\n"@,
            _ => "<polygon points=\""@ + poly_text(f, e.points()) + "\" fill=\""@ + c
                + "\" fill-opacity=\"0.35\" stroke=\""@ + c + "\" stroke-width=\""@ + fmt_dbl(
                stroke_w(),
                2,
            ) + "\"/>\n"@,
        }
    }
}

pub open spec fn elem_lines(es: Seq<Element>, layers: Option<&[i16]>, f: Rect) -> Seq<char>
    decreases es.len(),
{
    if es.len() == 0 {
        seq![]
    } else {
        elem_lines(es.drop_last(), layers, f) + elem_line(es.last(), layers, f)
    }
}

/// `|a - b|` of two values.
pub open spec fn dist(a: Dbl, b: Dbl) -> Dbl {
    sub_spec(max_spec(a, b), min_spec(a, b))
}

/// `format!("{:.1}", a - b)`, sign included.
pub open spec fn fmt_diff(a: Dbl, b: Dbl) -> Seq<char> {
    if le(b, a) {
        fmt_dbl(sub_spec(a, b), 1)
    } else {
        seq!['-'] + fmt_dbl(sub_spec(b, a), 1)
    }
}

/// The corners of a mark on the canvas: `(ax, ay, bx, by)`.
pub open spec fn mark_corners(m: Mark, f: Rect) -> (Dbl, Dbl, Dbl, Dbl) {
    (map_x(f, m.r.x0 as int), map_y(f, m.r.y0 as int), map_x(f, m.r.x1 as int), map_y(f, m.r.y1 as int))
}

/// A mark's red box.
pub open spec fn mark_box(ax: Dbl, ay: Dbl, bx: Dbl, by: Dbl) -> Seq<char> {
    "<rect x=\""@ + fmt_dbl(min_spec(ax, bx), 1) + "\" y=\""@ + fmt_dbl(min_spec(ay, by), 1)
        + "\" width=\""@ + fmt_dbl(dist(ax, bx), 1) + "\" height=\""@ + fmt_dbl(dist(ay, by), 1)
        + "\" fill=\"none\" stroke=\"#d00\" stroke-width=\""@ + fmt_dbl(
        mul_spec(stroke_w(), num(2)),
        2,
    ) + "\"/>\n"@
}

/// A mark's escaped label, just above the box's top-left corner.
pub open spec fn mark_label(rx: Dbl, ry: Dbl, label: Seq<char>) -> Seq<char> {
    if label.len() > 0 {
        "<text x=\""@ + fmt_dbl(rx, 1) + "\" y=\""@ + fmt_diff(ry, num(2)) + "\" fill=\"#d00\">"@
            + esc(label) + "</text>\n"@
    } else {
        seq![]
    }
}

/// A mark's red box, and its escaped label above it when there is one.
pub open spec fn mark_line(m: Mark, f: Rect) -> Seq<char> {
    let (ax, ay, bx, by) = mark_corners(m, f);
    mark_box(ax, ay, bx, by) + mark_label(min_spec(ax, bx), min_spec(ay, by), m.label@)
}

pub open spec fn mark_lines(ms: Seq<Mark>, f: Rect) -> Seq<char>
    decreases ms.len(),
{
    if ms.len() == 0 {
        seq![]
    } else {
        mark_lines(ms.drop_last(), f) + mark_line(ms.last(), f)
    }
}

/// Some drawn element is on layer `v`.
pub open spec fn layer_used(es: Seq<Element>, layers: Option<&[i16]>, v: int) -> bool {
    exists|k: int| 0 <= k < es.len() && drawn(es[k], layers) && es[k].layer_of() == v
}

/// The drawn layers from `lo` up, in increasing order, each once.
pub open spec fn layers_from(es: Seq<Element>, layers: Option<&[i16]>, lo: int) -> Seq<i16>
    decreases 32768 - lo,
{
    if lo >= 32768 {
        seq![]
    } else {
        (if layer_used(es, layers, lo) {
            seq![lo as i16]
        } else {
            seq![]
        }) + layers_from(es, layers, lo + 1)
    }
}

/// The legend's layers: every drawn layer, in increasing order, each once.
pub open spec fn legend_layers(es: Seq<Element>, layers: Option<&[i16]>) -> Seq<i16> {
    layers_from(es, layers, -32768)
}

/// Legend row `i`: a swatch and `layer N`.
pub open spec fn legend_entry(i: int, layer: i16) -> Seq<char> {
    let c = palette(palette_index(layer))@;
    "<rect x=\""@ + fmt_dbl(num(792), 1) + "\" y=\""@ + fmt_dbl(num(30 + 18 * i), 1)
        + "\" width=\"12\" height=\"12\" fill=\""@ + c + "\" fill-opacity=\"0.6\" stroke=\""@ + c
        + "\"/>\n<text x=\""@ + fmt_dbl(num(810), 1) + "\" y=\""@ + fmt_dbl(num(40 + 18 * i), 1)
        + "\">layer "@ + signed_dec(layer as int) + "</text>\n"@
}

pub open spec fn legend_entries(ls: Seq<i16>) -> Seq<char>
    decreases ls.len(),
{
    if ls.len() == 0 {
        seq![]
    } else {
        legend_entries(ls.drop_last()) + legend_entry(ls.len() - 1, ls.last())
    }
}

/// The legend row counting the marks, after `n` layer rows.
pub open spec fn marks_legend(n: int, count: nat) -> Seq<char> {
    if count == 0 {
        seq![]
    } else {
        "<rect x=\""@ + fmt_dbl(num(792), 1) + "\" y=\""@ + fmt_dbl(num(30 + 18 * n), 1)
            + "\" width=\"12\" height=\"12\" fill=\"none\" stroke=\"#d00\" stroke-width=\"2\"/>\n<text x=\""@
            + fmt_dbl(num(810), 1) + "\" y=\""@ + fmt_dbl(num(40 + 18 * n), 1)
            + "\" fill=\"#d00\">"@ + dec(count) + " violation(s)</text>\n"@
    }
}

/// Canvas height: the drawing or the legend, whichever is taller, plus margins.
pub open spec fn canvas_h(f: Rect, n: int) -> Dbl {
    add_spec(max_spec(mul_spec(num(span_h(f)), scale(f)), num(48 + 18 * n)), num(32))
}

/// The opening `<svg>` element and the background.
pub open spec fn header(ch: Dbl) -> Seq<char> {
    let cw = fmt_dbl(num(988), 0);
    let h = fmt_dbl(ch, 0);
    "<svg xmlns=\"http://www.w3.org/2000/svg\" width=\""@ + cw + "\" height=\""@ + h
        + "\" viewBox=\"0 0 "@ + cw + " "@ + h
        + "\" font-family=\"monospace\" font-size=\"11\">\n<rect width=\""@ + cw + "\" height=\""@
        + h + "\" fill=\"#fafafa\"/>\n"@
}

/// The whole document.
pub open spec fn svg_text(cell: Cell, layers: Option<&[i16]>, marks: Seq<Mark>) -> Seq<char> {
    let es = cell.elements@;
    let f = frame(es, layers, marks);
    let ls = legend_layers(es, layers);
    header(canvas_h(f, ls.len() as int)) + elem_lines(es, layers, f) + mark_lines(marks, f)
        + "<text x=\""@ + fmt_dbl(num(792), 1) + "\" y=\"16\" font-weight=\"bold\">layers</text>\n"@
        + legend_entries(ls) + marks_legend(ls.len() as int, marks.len()) + "</svg>\n"@
}

/// The layer and vertices of drawn geometry; `None` for a text.
pub fn shape_of(e: &Element) -> (r: Option<(i16, &Vec<(i32, i32)>)>)
    ensures
        match r {
            Some((l, p)) => e.is_shape() && l == e.layer_of() && p@ == e.points(),
            None => !e.is_shape(),
        },
{
    match e {
        Element::Boundary { layer, pts, .. } => Some((*layer, pts)),
        Element::Path { layer, pts, .. } => Some((*layer, pts)),
        Element::Box { layer, pts, .. } => Some((*layer, pts)),
        Element::Text { .. } => None,
    }
}

/// A point of drawn geometry is among the drawn points.
pub proof fn lemma_drawn_points_has(
    es: Seq<Element>,
    layers: Option<&[i16]>,
    k: int,
    i: int,
) -> (j: int)
    requires
        0 <= k < es.len(),
        drawn(es[k], layers),
        0 <= i < es[k].points().len(),
    ensures
        0 <= j < drawn_points(es, layers).len(),
        drawn_points(es, layers)[j] == es[k].points()[i],
    decreases es.len(),
{
    let q = es.drop_last();
    let pre = drawn_points(q, layers);
    if k == es.len() - 1 {
        let j = pre.len() + i;
        assert(drawn_points(es, layers) == pre + es.last().points());
        j
    } else {
        assert(q[k] == es[k]);
        let j = lemma_drawn_points_has(q, layers, k, i);
        let tail = if drawn(es.last(), layers) {
            es.last().points()
        } else {
            seq![]
        };
        assert(drawn_points(es, layers) == pre + tail);
        j
    }
}

/// A corner of a mark is among the mark points.
pub proof fn lemma_mark_points_has(ms: Seq<Mark>, k: int, i: int) -> (j: int)
    requires
        0 <= k < ms.len(),
        0 <= i < 5,
    ensures
        0 <= j < mark_points(ms).len(),
        mark_points(ms)[j] == ms[k].r.boundary()[i],
    decreases ms.len(),
{
    let q = ms.drop_last();
    let pre = mark_points(q);
    assert(mark_points(ms) == pre + ms.last().r.boundary());
    if k == ms.len() - 1 {
        pre.len() + i
    } else {
        assert(q[k] == ms[k]);
        lemma_mark_points_has(q, k, i)
    }
}

/// Every vertex of drawn geometry lies in the frame.
pub proof fn lemma_frame_holds_shape(
    es: Seq<Element>,
    layers: Option<&[i16]>,
    ms: Seq<Mark>,
    k: int,
    i: int,
)
    requires
        0 <= k < es.len(),
        drawn(es[k], layers),
        0 <= i < es[k].points().len(),
    ensures
        frame(es, layers, ms).holds(es[k].points()[i]),
{
    let d = drawn_points(es, layers);
    let all = d + mark_points(ms);
    let j = lemma_drawn_points_has(es, layers, k, i);
    assert(all[j] == d[j]);
    lemma_bbox_holds(all, j);
}

/// Both corners of every mark lie in the frame.
pub proof fn lemma_frame_holds_mark(es: Seq<Element>, layers: Option<&[i16]>, ms: Seq<Mark>, k: int)
    requires
        0 <= k < ms.len(),
    ensures
        frame(es, layers, ms).holds((ms[k].r.x0, ms[k].r.y0)),
        frame(es, layers, ms).holds((ms[k].r.x1, ms[k].r.y1)),
{
    let d = drawn_points(es, layers);
    let mp = mark_points(ms);
    let all = d + mp;
    let j0 = lemma_mark_points_has(ms, k, 0);
    let j2 = lemma_mark_points_has(ms, k, 2);
    assert(all[d.len() + j0] == mp[j0]);
    assert(all[d.len() + j2] == mp[j2]);
    lemma_bbox_holds(all, d.len() + j0);
    lemma_bbox_holds(all, d.len() + j2);
}

/// The frame: bounding box of drawn geometry and marks.
pub fn frame_exec(es: &Vec<Element>, layers: Option<&[i16]>, marks: &[Mark]) -> (f: Rect)
    ensures
        f == frame(es@, layers, marks@),
{
    let mut acc: Option<Rect> = None;
    let mut k: usize = 0;
    while k < es.len()
        invariant
            k <= es@.len(),
            acc == bbox_of(drawn_points(es@.subrange(0, k as int), layers)),
        decreases es@.len() - k,
    {
        let ghost before = drawn_points(es@.subrange(0, k as int), layers);
        let ghost sub1 = es@.subrange(0, k as int + 1);
        assert(sub1.drop_last() == es@.subrange(0, k as int));
        assert(sub1.last() == es@[k as int]);
        match shape_of(&es[k]) {
            Some((layer, pts)) => {
                if keep(layer, layers) {
                    let mut j: usize = 0;
                    while j < pts.len()
                        invariant
                            j <= pts@.len(),
                            acc == bbox_of(before + pts@.subrange(0, j as int)),
                        decreases pts@.len() - j,
                    {
                        proof {
                            let s0 = before + pts@.subrange(0, j as int);
                            assert(before + pts@.subrange(0, j as int + 1) == s0.push(pts@[j as int]));
                            lemma_bbox_push(s0, pts@[j as int]);
                        }
                        acc = grow_exec(acc, pts[j]);
                        j = j + 1;
                    }
                    assert(pts@.subrange(0, j as int) == pts@);
                } else {
                    assert(before + seq![] == before);
                }
            },
            None => {
                assert(before + seq![] == before);
            },
        }
        k = k + 1;
    }
    assert(es@.subrange(0, k as int) == es@);
    let ghost d = drawn_points(es@, layers);
    let mut k: usize = 0;
    while k < marks.len()
        invariant
            k <= marks@.len(),
            d == drawn_points(es@, layers),
            acc == bbox_of(d + mark_points(marks@.subrange(0, k as int))),
        decreases marks@.len() - k,
    {
        let ghost before = d + mark_points(marks@.subrange(0, k as int));
        let ghost sub1 = marks@.subrange(0, k as int + 1);
        assert(sub1.drop_last() == marks@.subrange(0, k as int));
        assert(sub1.last() == marks@[k as int]);
        let ring = marks[k].r.as_boundary();
        let mut j: usize = 0;
        while j < ring.len()
            invariant
                j <= ring@.len(),
                acc == bbox_of(before + ring@.subrange(0, j as int)),
            decreases ring@.len() - j,
        {
            proof {
                let s0 = before + ring@.subrange(0, j as int);
                assert(before + ring@.subrange(0, j as int + 1) == s0.push(ring@[j as int]));
                lemma_bbox_push(s0, ring@[j as int]);
            }
            acc = grow_exec(acc, ring[j]);
            j = j + 1;
        }
        assert(ring@.subrange(0, j as int) == ring@);
        assert(d + mark_points(sub1) == before + ring@);
        k = k + 1;
    }
    assert(marks@.subrange(0, k as int) == marks@);
    match acc {
        Some(b) => b,
        None => Rect { x0: 0, y0: 0, x1: 1, y1: 1 },
    }
}

/// A computed canvas coordinate: well formed, and small enough to add, compare
/// and print.
pub open spec fn coord_ok(v: Dbl) -> bool {
    v.wf() && -400 <= v.e <= 58
}

/// The scale as computed: well formed with a small exponent.
pub open spec fn scale_ok(sc: Dbl) -> bool {
    sc.wf() && -118 <= sc.e <= 1
}

/// `s` of a frame.
pub fn scale_exec(f: Rect) -> (sc: Dbl)
    ensures
        sc == scale(f),
        scale_ok(sc),
{
    let dw: i64 = f.x1 as i64 - f.x0 as i64;
    let dh: i64 = f.y1 as i64 - f.y0 as i64;
    let dw: i64 = if dw >= 1 {
        dw
    } else {
        1
    };
    let dh: i64 = if dh >= 1 {
        dh
    } else {
        1
    };
    let m = if dw >= dh {
        dw
    } else {
        dh
    };
    div_nat(760, m as u64)
}

/// `num(n)` for `0 <= n < 2^53`, with its exponent range.
pub fn num_exec(n: u64) -> (r: Dbl)
    requires
        n < 0x20_0000_0000_0000,
    ensures
        r == num(n as int),
        r.wf(),
        -53 <= r.e <= 1,
{
    proof {
        reveal(num);
    }
    from_u64(n)
}

/// Canvas x of a design x inside the frame.
pub fn map_x_exec(f: Rect, sc: Dbl, x: i32) -> (r: Dbl)
    requires
        sc == scale(f),
        scale_ok(sc),
        f.x0 <= x,
    ensures
        r == map_x(f, x as int),
        coord_ok(r),
{
    let d = (x as i64 - f.x0 as i64) as u64;
    let a = num_exec(16);
    let b = num_exec(d);
    let p = mul_exec(b, sc);
    add_exec(a, p)
}

/// Canvas y of a design y inside the frame.
pub fn map_y_exec(f: Rect, sc: Dbl, y: i32) -> (r: Dbl)
    requires
        sc == scale(f),
        scale_ok(sc),
        y <= f.y1,
    ensures
        r == map_y(f, y as int),
        coord_ok(r),
{
    let d = (f.y1 as i64 - y as i64) as u64;
    let a = num_exec(16);
    let b = num_exec(d);
    let p = mul_exec(b, sc);
    add_exec(a, p)
}

/// Appends the mapped vertices separated by single spaces.
pub fn push_poly(out: &mut Vec<char>, f: Rect, sc: Dbl, pts: &Vec<(i32, i32)>)
    requires
        sc == scale(f),
        scale_ok(sc),
        forall|i: int| 0 <= i < pts@.len() ==> f.holds(#[trigger] pts@[i]),
    ensures
        final(out)@ == old(out)@ + poly_text(f, pts@),
{
    let ghost start = out@;
    let mut i: usize = 0;
    while i < pts.len()
        invariant
            sc == scale(f),
            scale_ok(sc),
            forall|i: int| 0 <= i < pts@.len() ==> f.holds(#[trigger] pts@[i]),
            i <= pts@.len(),
            out@ == start + poly_text(f, pts@.subrange(0, i as int)),
        decreases pts@.len() - i,
    {
        let ghost before = out@;
        let ghost sub1 = pts@.subrange(0, i as int + 1);
        assert(sub1.drop_last() == pts@.subrange(0, i as int));
        assert(sub1.last() == pts@[i as int]);
        if i > 0 {
            out.push(' ');
        }
        let (x, y) = pts[i];
        assert(f.holds(pts@[i as int]));
        let px = map_x_exec(f, sc, x);
        let py = map_y_exec(f, sc, y);
        push_dbl(out, px, 1);
        out.push(',');
        push_dbl(out, py, 1);
        if i > 0 {
            assert(out@ == before + seq![' '] + pt_text(f, pts@[i as int]));
        } else {
            assert(sub1.len() == 1 && sub1[0] == pts@[0]);
            assert(out@ == before + pt_text(f, pts@[i as int]));
            assert(before == start);
        }
        i = i + 1;
    }
    assert(pts@.subrange(0, i as int) == pts@);
}

/// The outline width as computed: `(760 / 400).max(0.6)`.
pub fn stroke_w_exec() -> (sw: Dbl)
    ensures
        sw == stroke_w(),
        scale_ok(sw),
{
    let a = div_nat(760, 400);
    let b = div_nat(3, 5);
    max_exec(a, b)
}

/// Appends the `<polygon>` line of a boundary or box.
pub fn push_polygon(
    out: &mut Vec<char>,
    layer: i16,
    pts: &Vec<(i32, i32)>,
    f: Rect,
    sc: Dbl,
    sw: Dbl,
)
    requires
        sc == scale(f),
        scale_ok(sc),
        sw == stroke_w(),
        scale_ok(sw),
        forall|i: int| 0 <= i < pts@.len() ==> f.holds(#[trigger] pts@[i]),
    ensures
        final(out)@ == old(out)@ + ("<polygon points=\""@ + poly_text(f, pts@) + "\" fill=\""@
            + palette(palette_index(layer))@ + "\" fill-opacity=\"0.35\" stroke=\""@ + palette(
            palette_index(layer),
        )@ + "\" stroke-width=\""@ + fmt_dbl(stroke_w(), 2) + "\"/>\n"@),
{
    let ghost start = out@;
    let c = color(layer);
    push_str(out, "<polygon points=\"");
    push_poly(out, f, sc, pts);
    push_str(out, "\" fill=\"");
    push_str(out, c);
    push_str(out, "\" fill-opacity=\"0.35\" stroke=\"");
    push_str(out, c);
    push_str(out, "\" stroke-width=\"");
    push_dbl(out, sw, 2);
    push_str(out, "\"/>\n");
    assert(out@ =~= start + ("<polygon points=\""@ + poly_text(f, pts@) + "\" fill=\""@ + c@
        + "\" fill-opacity=\"0.35\" stroke=\""@ + c@ + "\" stroke-width=\""@ + fmt_dbl(
        stroke_w(),
        2,
    ) + "\"/>\n"@));
}

/// Appends the `<polyline>` line of a path.
pub fn push_polyline(
    out: &mut Vec<char>,
    layer: i16,
    width: i32,
    pts: &Vec<(i32, i32)>,
    f: Rect,
    sc: Dbl,
    sw: Dbl,
)
    requires
        sc == scale(f),
        scale_ok(sc),
        sw == stroke_w(),
        scale_ok(sw),
        forall|i: int| 0 <= i < pts@.len() ==> f.holds(#[trigger] pts@[i]),
    ensures
        final(out)@ == old(out)@ + ("<polyline points=\""@ + poly_text(f, pts@)
            + "\" fill=\"none\" stroke=\""@ + palette(palette_index(layer))@
            + "\" stroke-width=\""@ + fmt_dbl(path_w(f, width), 2)
            + "\" stroke-opacity=\"0.6\" stroke-linecap=\"round\"/>\n"@),
{
    let ghost start = out@;
    let c = color(layer);
    let w = if width > 0 {
        let wd = num_exec(width as u64);
        let p = mul_exec(wd, sc);
        max_exec(p, sw)
    } else {
        sw
    };
    push_str(out, "<polyline points=\"");
    push_poly(out, f, sc, pts);
    push_str(out, "\" fill=\"none\" stroke=\"");
    push_str(out, c);
    push_str(out, "\" stroke-width=\"");
    push_dbl(out, w, 2);
    push_str(out, "\" stroke-opacity=\"0.6\" stroke-linecap=\"round\"/>\n");
    assert(out@ =~= start + ("<polyline points=\""@ + poly_text(f, pts@)
        + "\" fill=\"none\" stroke=\""@ + c@ + "\" stroke-width=\""@ + fmt_dbl(path_w(f, width), 2)
        + "\" stroke-opacity=\"0.6\" stroke-linecap=\"round\"/>\n"@));
}

/// Appends the line of one element.
pub fn push_elem(out: &mut Vec<char>, e: &Element, layers: Option<&[i16]>, f: Rect, sc: Dbl, sw: Dbl)
    requires
        sc == scale(f),
        scale_ok(sc),
        sw == stroke_w(),
        scale_ok(sw),
        drawn(*e, layers) ==> forall|i: int|
            0 <= i < e.points().len() ==> f.holds(#[trigger] e.points()[i]),
    ensures
        final(out)@ == old(out)@ + elem_line(*e, layers, f),
{
    match e {
        Element::Boundary { layer, pts, .. } => {
            if keep(*layer, layers) {
                proof {
                    assert(e.points() == pts@);
                    assert forall|i: int| 0 <= i < pts@.len() implies f.holds(#[trigger] pts@[i]) by {
                        assert(e.points()[i] == pts@[i]);
                    }
                }
                push_polygon(out, *layer, pts, f, sc, sw);
            } else {
                assert(old(out)@ + seq![] == old(out)@);
            }
        },
        Element::Box { layer, pts, .. } => {
            if keep(*layer, layers) {
                proof {
                    assert(e.points() == pts@);
                    assert forall|i: int| 0 <= i < pts@.len() implies f.holds(#[trigger] pts@[i]) by {
                        assert(e.points()[i] == pts@[i]);
                    }
                }
                push_polygon(out, *layer, pts, f, sc, sw);
            } else {
                assert(old(out)@ + seq![] == old(out)@);
            }
        },
        Element::Path { layer, width, pts, .. } => {
            if keep(*layer, layers) {
                proof {
                    assert(e.points() == pts@);
                    assert forall|i: int| 0 <= i < pts@.len() implies f.holds(#[trigger] pts@[i]) by {
                        assert(e.points()[i] == pts@[i]);
                    }
                }
                push_polyline(out, *layer, *width, pts, f, sc, sw);
            } else {
                assert(old(out)@ + seq![] == old(out)@);
            }
        },
        Element::Text { .. } => {
            assert(old(out)@ + seq![] == old(out)@);
        },
    }
}

/// Appends a mark's red box.
pub fn push_mark_box(out: &mut Vec<char>, ax: Dbl, ay: Dbl, bx: Dbl, by: Dbl, sw: Dbl)
    requires
        coord_ok(ax),
        coord_ok(ay),
        coord_ok(bx),
        coord_ok(by),
        sw == stroke_w(),
        scale_ok(sw),
    ensures
        final(out)@ == old(out)@ + mark_box(ax, ay, bx, by),
{
    let ghost start = out@;
    let rx = min_exec(ax, bx);
    let ry = min_exec(ay, by);
    proof {
        lemma_le_total(ax, bx);
        lemma_le_total(ay, by);
    }
    let w = sub_exec(max_exec(ax, bx), rx);
    let h = sub_exec(max_exec(ay, by), ry);
    let two = num_exec(2);
    let lw = mul_exec(sw, two);
    push_str(out, "<rect x=\"");
    push_dbl(out, rx, 1);
    push_str(out, "\" y=\"");
    push_dbl(out, ry, 1);
    push_str(out, "\" width=\"");
    push_dbl(out, w, 1);
    push_str(out, "\" height=\"");
    push_dbl(out, h, 1);
    push_str(out, "\" fill=\"none\" stroke=\"#d00\" stroke-width=\"");
    push_dbl(out, lw, 2);
    push_str(out, "\"/>\n");
    assert(out@ =~= start + mark_box(ax, ay, bx, by));
}

/// Appends `format!("{:.1}", ry - 2.0)`.
pub fn push_diff_two(out: &mut Vec<char>, ry: Dbl)
    requires
        coord_ok(ry),
    ensures
        final(out)@ == old(out)@ + fmt_diff(ry, num(2)),
{
    let two = num_exec(2);
    if le_exec(two, ry) {
        let ty = sub_exec(ry, two);
        push_dbl(out, ty, 1);
    } else {
        proof {
            lemma_le_total(two, ry);
        }
        let ty = sub_exec(two, ry);
        let ghost before = out@;
        out.push('-');
        push_dbl(out, ty, 1);
        assert(out@ =~= before + (seq!['-'] + fmt_dbl(sub_spec(num(2), ry), 1)));
    }
}

/// Appends a mark's label line, if it has a label.
pub fn push_mark_label(out: &mut Vec<char>, rx: Dbl, ry: Dbl, label: &String)
    requires
        coord_ok(rx),
        coord_ok(ry),
    ensures
        final(out)@ == old(out)@ + mark_label(rx, ry, label@),
{
    let ghost start = out@;
    let lab = label.as_str();
    if !lab.is_empty() {
        push_str(out, "<text x=\"");
        push_dbl(out, rx, 1);
        push_str(out, "\" y=\"");
        push_diff_two(out, ry);
        push_str(out, "\" fill=\"#d00\">");
        push_esc(out, lab);
        push_str(out, "</text>\n");
        assert(out@ =~= start + mark_label(rx, ry, label@));
    } else {
        assert(out@ =~= start + mark_label(rx, ry, label@));
    }
}

/// Appends a mark's red box and its label.
pub fn push_mark(out: &mut Vec<char>, m: &Mark, f: Rect, sc: Dbl, sw: Dbl)
    requires
        sc == scale(f),
        scale_ok(sc),
        sw == stroke_w(),
        scale_ok(sw),
        f.holds((m.r.x0, m.r.y0)),
        f.holds((m.r.x1, m.r.y1)),
    ensures
        final(out)@ == old(out)@ + mark_line(*m, f),
{
    let ghost start = out@;
    let ax = map_x_exec(f, sc, m.r.x0);
    let ay = map_y_exec(f, sc, m.r.y0);
    let bx = map_x_exec(f, sc, m.r.x1);
    let by = map_y_exec(f, sc, m.r.y1);
    push_mark_box(out, ax, ay, bx, by, sw);
    let rx = min_exec(ax, bx);
    let ry = min_exec(ay, by);
    push_mark_label(out, rx, ry, &m.label);
    assert(out@ =~= start + mark_line(*m, f));
}

/// `layer_used` over a prefix grows by one element at a time.
pub proof fn lemma_layer_used_step(es: Seq<Element>, layers: Option<&[i16]>, k: int, v: int)
    requires
        0 <= k < es.len(),
    ensures
        layer_used(es.subrange(0, k + 1), layers, v) == (layer_used(es.subrange(0, k), layers, v)
            || (drawn(es[k], layers) && es[k].layer_of() == v)),
{
    let a = es.subrange(0, k);
    let b = es.subrange(0, k + 1);
    if layer_used(b, layers, v) {
        let j = choose|j: int| 0 <= j < b.len() && drawn(b[j], layers) && b[j].layer_of() == v;
        if j < k {
            assert(a[j] == b[j]);
        }
    }
    if layer_used(a, layers, v) {
        let j = choose|j: int| 0 <= j < a.len() && drawn(a[j], layers) && a[j].layer_of() == v;
        assert(a[j] == b[j]);
    }
    if drawn(es[k], layers) && es[k].layer_of() == v {
        assert(b[k] == es[k]);
    }
}

/// The legend's layers: each drawn layer once, increasing.
pub fn legend_layers_exec(es: &Vec<Element>, layers: Option<&[i16]>) -> (v: Vec<i16>)
    ensures
        v@ == legend_layers(es@, layers),
        v@.len() <= 65536,
{
    let mut present: Vec<bool> = Vec::new();
    let mut i: usize = 0;
    while i < 65536
        invariant
            i <= 65536,
            present@.len() == i,
            forall|j: int| 0 <= j < i ==> !present@[j],
        decreases 65536 - i,
    {
        present.push(false);
        i = i + 1;
    }
    let mut k: usize = 0;
    while k < es.len()
        invariant
            k <= es@.len(),
            present@.len() == 65536,
            forall|j: int|
                0 <= j < 65536 ==> present@[j] == layer_used(
                    es@.subrange(0, k as int),
                    layers,
                    j - 32768,
                ),
        decreases es@.len() - k,
    {
        let ghost old_present = present@;
        match shape_of(&es[k]) {
            Some((layer, _)) => {
                if keep(layer, layers) {
                    let slot = (layer as i32 + 32768) as usize;
                    present.set(slot, true);
                }
            },
            None => {},
        }
        proof {
            assert forall|j: int| 0 <= j < 65536 implies present@[j] == layer_used(
                es@.subrange(0, k as int + 1),
                layers,
                j - 32768,
            ) by {
                lemma_layer_used_step(es@, layers, k as int, j - 32768);
            }
        }
        k = k + 1;
    }
    assert(es@.subrange(0, k as int) == es@);
    let mut v: Vec<i16> = Vec::new();
    let mut j: usize = 0;
    while j < 65536
        invariant
            j <= 65536,
            present@.len() == 65536,
            forall|t: int| 0 <= t < 65536 ==> present@[t] == layer_used(es@, layers, t - 32768),
            v@ + layers_from(es@, layers, j - 32768) == legend_layers(es@, layers),
            v@.len() <= j,
        decreases 65536 - j,
    {
        let ghost lo = j - 32768;
        assert(layers_from(es@, layers, lo) == (if layer_used(es@, layers, lo) {
            seq![lo as i16]
        } else {
            seq![]
        }) + layers_from(es@, layers, lo + 1));
        let ghost before = v@;
        if present[j] {
            v.push((j as i32 - 32768) as i16);
            assert(v@ + layers_from(es@, layers, lo + 1) =~= before + layers_from(es@, layers, lo));
        } else {
            assert(v@ + layers_from(es@, layers, lo + 1) =~= before + layers_from(es@, layers, lo));
        }
        j = j + 1;
    }
    assert(layers_from(es@, layers, 32768) == Seq::<i16>::empty());
    assert(v@ =~= v@ + layers_from(es@, layers, 32768));
    v
}

/// Appends `format!("{:.1}", n as f64)` of a small integer.
pub fn push_num1(out: &mut Vec<char>, n: u64)
    requires
        n < 0x20_0000_0000_0000,
    ensures
        final(out)@ == old(out)@ + fmt_dbl(num(n as int), 1),
{
    let v = num_exec(n);
    push_dbl(out, v, 1);
}

/// Appends legend row `i`.
#[verifier::rlimit(60)]
pub fn push_legend_entry(out: &mut Vec<char>, i: usize, layer: i16)
    requires
        i < 65536,
    ensures
        final(out)@ == old(out)@ + legend_entry(i as int, layer),
{
    let ghost start = out@;
    let c = color(layer);
    push_str(out, "<rect x=\"");
    push_num1(out, 792);
    push_str(out, "\" y=\"");
    push_num1(out, (30 + 18 * i) as u64);
    push_str(out, "\" width=\"12\" height=\"12\" fill=\"");
    push_str(out, c);
    push_str(out, "\" fill-opacity=\"0.6\" stroke=\"");
    push_str(out, c);
    push_str(out, "\"/>\n<text x=\"");
    push_num1(out, 810);
    push_str(out, "\" y=\"");
    push_num1(out, (40 + 18 * i) as u64);
    push_str(out, "\">layer ");
    push_i64(out, layer as i64);
    push_str(out, "</text>\n");
    assert(out@ =~= start + legend_entry(i as int, layer));
}

/// Appends every legend row.
pub fn push_legend(out: &mut Vec<char>, ls: &Vec<i16>)
    requires
        ls@.len() <= 65536,
    ensures
        final(out)@ == old(out)@ + legend_entries(ls@),
{
    let ghost start = out@;
    let mut i: usize = 0;
    while i < ls.len()
        invariant
            i <= ls@.len() <= 65536,
            out@ == start + legend_entries(ls@.subrange(0, i as int)),
        decreases ls@.len() - i,
    {
        let ghost sub1 = ls@.subrange(0, i as int + 1);
        assert(sub1.drop_last() == ls@.subrange(0, i as int));
        assert(sub1.last() == ls@[i as int]);
        push_legend_entry(out, i, ls[i]);
        assert(out@ =~= start + legend_entries(sub1));
        i = i + 1;
    }
    assert(ls@.subrange(0, i as int) == ls@);
}

/// Appends the legend row counting the marks.
pub fn push_marks_legend(out: &mut Vec<char>, n: usize, count: usize)
    requires
        n <= 65536,
    ensures
        final(out)@ == old(out)@ + marks_legend(n as int, count as nat),
{
    let ghost start = out@;
    if count > 0 {
        push_str(out, "<rect x=\"");
        push_num1(out, 792);
        push_str(out, "\" y=\"");
        push_num1(out, (30 + 18 * n) as u64);
        push_str(
            out,
            "\" width=\"12\" height=\"12\" fill=\"none\" stroke=\"#d00\" stroke-width=\"2\"/>\n<text x=\"",
        );
        push_num1(out, 810);
        push_str(out, "\" y=\"");
        push_num1(out, (40 + 18 * n) as u64);
        push_str(out, "\" fill=\"#d00\">");
        push_dec(out, count as u128);
        push_str(out, " violation(s)</text>\n");
    }
    assert(out@ =~= start + marks_legend(n as int, count as nat));
}

/// Canvas height for a frame and `n` legend rows.
pub fn canvas_h_exec(f: Rect, sc: Dbl, n: usize) -> (ch: Dbl)
    requires
        sc == scale(f),
        scale_ok(sc),
        n <= 65536,
    ensures
        ch == canvas_h(f, n as int),
        coord_ok(ch),
{
    let dh: i64 = f.y1 as i64 - f.y0 as i64;
    let dh: i64 = if dh >= 1 {
        dh
    } else {
        1
    };
    let a = mul_exec(num_exec(dh as u64), sc);
    let b = num_exec((48 + 18 * n) as u64);
    let c = max_exec(a, b);
    add_exec(c, num_exec(32))
}

/// Appends the opening `<svg>` element and the background.
pub fn push_header(out: &mut Vec<char>, ch: Dbl)
    requires
        coord_ok(ch),
    ensures
        final(out)@ == old(out)@ + header(ch),
{
    let ghost start = out@;
    let cw = num_exec(988);
    push_str(out, "<svg xmlns=\"http://www.w3.org/2000/svg\" width=\"");
    push_dbl(out, cw, 0);
    push_str(out, "\" height=\"");
    push_dbl(out, ch, 0);
    push_str(out, "\" viewBox=\"0 0 ");
    push_dbl(out, cw, 0);
    push_str(out, " ");
    push_dbl(out, ch, 0);
    push_str(out, "\" font-family=\"monospace\" font-size=\"11\">\n<rect width=\"");
    push_dbl(out, cw, 0);
    push_str(out, "\" height=\"");
    push_dbl(out, ch, 0);
    push_str(out, "\" fill=\"#fafafa\"/>\n");
    assert(out@ =~= start + header(ch));
}

/// Render `cell` to one SVG document: every drawn shape (all layers when
/// `layers` is `None`, else only the listed ones), the `marks` boxed in red on
/// top, and a legend of the drawn layers.
pub fn render(cell: &Cell, layers: Option<&[i16]>, marks: &[Mark]) -> (svg: String)
    ensures
        svg@ == svg_text(*cell, layers, marks@),
{
    let es = &cell.elements;
    let f = frame_exec(es, layers, marks);
    let sc = scale_exec(f);
    let sw = stroke_w_exec();
    let ls = legend_layers_exec(es, layers);
    let ch = canvas_h_exec(f, sc, ls.len());
    let mut out: Vec<char> = Vec::new();
    push_header(&mut out, ch);
    let ghost after_header = out@;
    let mut k: usize = 0;
    while k < es.len()
        invariant
            k <= es@.len(),
            es == &cell.elements,
            f == frame(es@, layers, marks@),
            sc == scale(f),
            scale_ok(sc),
            sw == stroke_w(),
            scale_ok(sw),
            out@ == after_header + elem_lines(es@.subrange(0, k as int), layers, f),
        decreases es@.len() - k,
    {
        let ghost sub1 = es@.subrange(0, k as int + 1);
        assert(sub1.drop_last() == es@.subrange(0, k as int));
        assert(sub1.last() == es@[k as int]);
        proof {
            if drawn(es@[k as int], layers) {
                assert forall|i: int| 0 <= i < es@[k as int].points().len() implies f.holds(
                    #[trigger] es@[k as int].points()[i],
                ) by {
                    lemma_frame_holds_shape(es@, layers, marks@, k as int, i);
                }
            }
        }
        push_elem(&mut out, &es[k], layers, f, sc, sw);
        assert(out@ =~= after_header + elem_lines(sub1, layers, f));
        k = k + 1;
    }
    assert(es@.subrange(0, k as int) == es@);
    let ghost after_elems = out@;
    let mut k: usize = 0;
    while k < marks.len()
        invariant
            k <= marks@.len(),
            f == frame(es@, layers, marks@),
            sc == scale(f),
            scale_ok(sc),
            sw == stroke_w(),
            scale_ok(sw),
            out@ == after_elems + mark_lines(marks@.subrange(0, k as int), f),
        decreases marks@.len() - k,
    {
        let ghost sub1 = marks@.subrange(0, k as int + 1);
        assert(sub1.drop_last() == marks@.subrange(0, k as int));
        assert(sub1.last() == marks@[k as int]);
        proof {
            lemma_frame_holds_mark(es@, layers, marks@, k as int);
        }
        push_mark(&mut out, &marks[k], f, sc, sw);
        assert(out@ =~= after_elems + mark_lines(sub1, f));
        k = k + 1;
    }
    assert(marks@.subrange(0, k as int) == marks@);
    push_str(&mut out, "<text x=\"");
    push_num1(&mut out, 792);
    push_str(&mut out, "\" y=\"16\" font-weight=\"bold\">layers</text>\n");
    push_legend(&mut out, &ls);
    push_marks_legend(&mut out, ls.len(), marks.len());
    push_str(&mut out, "</svg>\n");
    assert(out@ =~= svg_text(*cell, layers, marks@));
    string_from_chars(&out)
}

/// What a layer filter lets through: texts, and shapes on the listed layers.
pub open spec fn on_layers(ls: Seq<i16>) -> spec_fn(Element) -> bool {
    |e: Element| !e.is_shape() || ls.contains(e.layer_of())
}

pub proof fn lemma_filter_drawn(es: Seq<Element>, ls: &[i16], f: Rect)
    ensures
        drawn_points(es.filter(on_layers(ls@)), None) == drawn_points(es, Some(ls)),
        elem_lines(es.filter(on_layers(ls@)), None, f) == elem_lines(es, Some(ls), f),
    decreases es.len(),
{
    reveal(Seq::filter);
    if es.len() > 0 {
        let t = es.drop_last();
        lemma_filter_drawn(t, ls, f);
        let ft = t.filter(on_layers(ls@));
        let fe = es.filter(on_layers(ls@));
        if on_layers(ls@)(es.last()) {
            assert(fe == ft.push(es.last()));
            assert(fe.drop_last() == ft);
            assert(fe.last() == es.last());
        } else {
            assert(fe == ft);
        }
    }
}

proof fn lemma_filter_used(es: Seq<Element>, ls: &[i16], v: int)
    ensures
        layer_used(es.filter(on_layers(ls@)), None, v) == layer_used(es, Some(ls), v),
{
    let p = on_layers(ls@);
    let fe = es.filter(p);
    if layer_used(fe, None, v) {
        let k = choose|k: int| 0 <= k < fe.len() && drawn(fe[k], None) && fe[k].layer_of() == v;
        es.lemma_filter_pred(p, k);
        assert(fe.contains(fe[k]));
        es.lemma_filter_contains_rev(p, fe[k]);
        let j = choose|j: int| 0 <= j < es.len() && es[j] == fe[k];
        assert(drawn(es[j], Some(ls)) && es[j].layer_of() == v);
    }
    if layer_used(es, Some(ls), v) {
        let k = choose|k: int| 0 <= k < es.len() && drawn(es[k], Some(ls)) && es[k].layer_of() == v;
        es.lemma_filter_contains(p, k);
        let j = choose|j: int| 0 <= j < fe.len() && fe[j] == es[k];
        assert(drawn(fe[j], None) && fe[j].layer_of() == v);
    }
}

proof fn lemma_filter_layers_from(es: Seq<Element>, ls: &[i16], lo: int)
    ensures
        layers_from(es.filter(on_layers(ls@)), None, lo) == layers_from(es, Some(ls), lo),
    decreases 32768 - lo,
{
    if lo < 32768 {
        lemma_filter_used(es, ls, lo);
        lemma_filter_layers_from(es, ls, lo + 1);
    }
}

/// Rendering under a layer filter gives the same document as rendering the
/// cell with every shape on another layer taken out.
pub proof fn lemma_layer_filter(a: Cell, b: Cell, ls: &[i16], marks: Seq<Mark>)
    requires
        b.elements@ == a.elements@.filter(on_layers(ls@)),
    ensures
        svg_text(a, Some(ls), marks) == svg_text(b, None, marks),
{
    let es = a.elements@;
    lemma_filter_drawn(es, ls, frame(es, Some(ls), marks));
    lemma_filter_layers_from(es, ls, -32768);
}

/// Joining something after a text of at least four characters keeps its
/// first four.
pub broadcast proof fn lemma_first_four_kept(a: Seq<char>, b: Seq<char>)
    requires
        a.len() >= 4,
    ensures
        #[trigger] (a + b).subrange(0, 4) == a.subrange(0, 4),
{
    assert((a + b).subrange(0, 4) =~= a.subrange(0, 4));
}

/// Every document, whatever the cell, filter and marks, is one `<svg>`
/// element: it opens with `<svg` and closes with `</svg>` and a newline.
pub proof fn lemma_one_svg_element(cell: Cell, layers: Option<&[i16]>, marks: Seq<Mark>)
    ensures
        svg_text(cell, layers, marks).subrange(0, 4) == "<svg"@,
        svg_text(cell, layers, marks).subrange(
            svg_text(cell, layers, marks).len() - 7,
            svg_text(cell, layers, marks).len() as int,
        ) == "</svg>\n"@,
{
    broadcast use lemma_first_four_kept;

    reveal_strlit("<svg");
    reveal_strlit("</svg>\n");
    reveal_strlit("<svg xmlns=\"http://www.w3.org/2000/svg\" width=\"");
    let doc = svg_text(cell, layers, marks);
    let lead = "<svg xmlns=\"http://www.w3.org/2000/svg\" width=\""@;
    let tail = "</svg>\n"@;
    let pre = doc.subrange(0, doc.len() - 7);
    assert(doc.subrange(0, 4) == lead.subrange(0, 4));
    assert(lead.subrange(0, 4) =~= "<svg"@);
    assert(doc == pre + tail);
    assert(doc.subrange(doc.len() - 7, doc.len() as int) =~= tail);
}

/// A canvas coordinate `16 + n * s`, for `n` at most the frame's larger
/// span, lies between 16 and 777 (the 760-pixel drawing area, plus one for
/// rounding).
proof fn lemma_canvas_coord(f: Rect, n: int)
    requires
        0 <= n <= (if span_w(f) >= span_h(f) {
            span_w(f)
        } else {
            span_h(f)
        }),
    ensures
        val_ge(add_spec(num(16), mul_spec(num(n), scale(f))), 16),
        val_le(add_spec(num(16), mul_spec(num(n), scale(f))), 777),
{
    reveal(num);
    lemma_p2_consts();
    assert(p2(4) == 16 && p2(5) == 32 && p2(0) == 1) by {
        reveal_with_fuel(p2, 6);
    }
    lemma_blen_unique(16, 5);
    lemma_int_exact(16);
    let a = num(16);
    let k16 = 48nat;
    assert(a.m == 16 * p2(k16) && a.e == -48);
    let d = if span_w(f) >= span_h(f) {
        span_w(f)
    } else {
        span_h(f)
    };
    lemma_round_div_le(760, d as nat);
    let sc = scale(f);
    let t = mul_spec(num(n), sc);
    let v = add_spec(a, t);
    if n == 0 {
        assert(num(0).is_zero());
        assert(0 * sc.m == 0);
        assert(t == round_bits(0, num(0).e + sc.e));
        assert(t.is_zero());
        assert(v == a);
        lemma_p2_pos(k16);
        assert(a.m <= 777 * p2(k16)) by (nonlinear_arith)
            requires
                a.m == 16 * p2(k16),
        ;
    } else {
        lemma_int_exact(n as nat);
        let kn = (53 - blen(n as nat)) as nat;
        let pn = p2(kn);
        let xn = num(n);
        assert(xn.m == n * pn && xn.e == -kn);
        let jj = (-sc.e) as nat;
        let big_n = (n * pn * sc.m) as nat;
        let e = -kn + sc.e;
        lemma_p2_add(kn, jj);
        assert((-e) as nat == kn + jj);
        assert(big_n <= 761 * p2((-e) as nat)) by (nonlinear_arith)
            requires
                d * sc.m <= 761 * p2(jj),
                n <= d,
                big_n == n * pn * sc.m,
                p2(kn + jj) == pn * p2(jj),
                (-e) as nat == kn + jj,
        ;
        assert(big_n < P120) by (nonlinear_arith)
            requires
                n * pn < P53,
                sc.m < P53,
                big_n == n * pn * sc.m,
                P53 == 0x20_0000_0000_0000,
                P120 == 0x100_0000_0000_0000_0000_0000_0000_0000,
        ;
        assert(big_n > 0) by (nonlinear_arith)
            requires
                n * pn >= P52,
                sc.m >= P52,
                big_n == n * pn * sc.m,
                P52 > 0,
        ;
        assert(t == round_bits(big_n, e));
        lemma_p2_le(120, 0x800);
        lemma_round_le(big_n, e, 761);
        lemma_round_bits_shape(big_n, e);
        crate::binary64::lemma_round_bits_nonzero(big_n, e);
        if t.e >= 0 {
            lemma_p2_pos(t.e as nat);
            assert(t.m * p2(t.e as nat) >= t.m) by (nonlinear_arith)
                requires
                    p2(t.e as nat) >= 1,
            ;
            assert(false);
        }
        let b = if -48 <= t.e {
            -48int
        } else {
            t.e as int
        };
        let vb = (-b) as nat;
        let vt = (-t.e) as nat;
        let da = (-48 - b) as nat;
        let dt = (t.e - b) as nat;
        lemma_p2_add(k16, da);
        assert(k16 + da == vb);
        lemma_p2_add(vt, dt);
        assert(vt + dt == vb);
        let sa = scaled(a, b);
        let st = scaled(t, b);
        assert(sa == 16 * p2(vb)) by (nonlinear_arith)
            requires
                sa == a.m * p2(da),
                a.m == 16 * p2(k16),
                p2(vb) == p2(k16) * p2(da),
        ;
        assert(st <= 761 * p2(vb)) by (nonlinear_arith)
            requires
                st == t.m * p2(dt),
                t.m <= 761 * p2(vt),
                p2(vb) == p2(vt) * p2(dt),
        ;
        let sum = (sa + st) as nat;
        assert(v == round_bits(sum, b));
        assert(16 * p2(vb) <= sum <= 777 * p2(vb));
        lemma_p2_le(vb, 0x200);
        lemma_p2_add(0x200, 10);
        assert(p2(10) == 1024) by {
            reveal_with_fuel(p2, 11);
        }
        lemma_p2_le(0x20a, 0x800);
        lemma_p2_pos(0x200);
        assert(sum < p2(0x800)) by (nonlinear_arith)
            requires
                sum <= 777 * p2(vb),
                p2(vb) <= p2(0x200),
                p2(0x200) >= 1,
                p2(0x20a) == p2(0x200) * 1024,
                p2(0x20a) <= p2(0x800),
        ;
        lemma_p2_pos(vb);
        assert(sum > 0) by (nonlinear_arith)
            requires
                sum >= 16 * p2(vb),
                p2(vb) >= 1,
        ;
        lemma_round_le(sum, b, 777);
        lemma_round_ge(sum, b, 16);
    }
}

/// Every vertex of drawn geometry lands in the drawing area: both canvas
/// coordinates lie between 16 and 777.
pub proof fn lemma_vertices_on_canvas(
    es: Seq<Element>,
    layers: Option<&[i16]>,
    ms: Seq<Mark>,
    k: int,
    i: int,
)
    requires
        0 <= k < es.len(),
        drawn(es[k], layers),
        0 <= i < es[k].points().len(),
    ensures
        val_ge(map_x(frame(es, layers, ms), es[k].points()[i].0 as int), 16),
        val_le(map_x(frame(es, layers, ms), es[k].points()[i].0 as int), 777),
        val_ge(map_y(frame(es, layers, ms), es[k].points()[i].1 as int), 16),
        val_le(map_y(frame(es, layers, ms), es[k].points()[i].1 as int), 777),
{
    let f = frame(es, layers, ms);
    let p = es[k].points()[i];
    lemma_frame_holds_shape(es, layers, ms, k, i);
    lemma_canvas_coord(f, p.0 - f.x0);
    lemma_canvas_coord(f, f.y1 - p.1);
}

/// Both corners of every mark land in the drawing area too.
pub proof fn lemma_marks_on_canvas(es: Seq<Element>, layers: Option<&[i16]>, ms: Seq<Mark>, k: int)
    requires
        0 <= k < ms.len(),
    ensures
        val_ge(mark_corners(ms[k], frame(es, layers, ms)).0, 16),
        val_le(mark_corners(ms[k], frame(es, layers, ms)).0, 777),
        val_ge(mark_corners(ms[k], frame(es, layers, ms)).1, 16),
        val_le(mark_corners(ms[k], frame(es, layers, ms)).1, 777),
        val_ge(mark_corners(ms[k], frame(es, layers, ms)).2, 16),
        val_le(mark_corners(ms[k], frame(es, layers, ms)).2, 777),
        val_ge(mark_corners(ms[k], frame(es, layers, ms)).3, 16),
        val_le(mark_corners(ms[k], frame(es, layers, ms)).3, 777),
{
    let f = frame(es, layers, ms);
    let r = ms[k].r;
    lemma_frame_holds_mark(es, layers, ms, k);
    lemma_canvas_coord(f, r.x0 - f.x0);
    lemma_canvas_coord(f, f.y1 - r.y0);
    lemma_canvas_coord(f, r.x1 - f.x0);
    lemma_canvas_coord(f, f.y1 - r.y1);
}

/// Y is flipped so up is up: the frame's top edge (`y1`) lands exactly on
/// the top margin, `16`.
pub proof fn lemma_top_edge_on_margin(es: Seq<Element>, layers: Option<&[i16]>, ms: Seq<Mark>)
    ensures
        map_y(frame(es, layers, ms), frame(es, layers, ms).y1 as int) == num(16),
{
    reveal(num);
    let f = frame(es, layers, ms);
    let sc = scale(f);
    assert(num(0).m == 0);
    assert(num(0).m * sc.m == 0);
    assert(mul_spec(num(0), sc) == round_bits(0, num(0).e + sc.e));
    crate::binary64::lemma_round_bits_nonzero(16, 0);
}

/// Y is flipped so up is up: of two points of the frame on one vertical,
/// the higher one never lands lower on the canvas.
pub proof fn lemma_up_is_up(f: Rect, ya: i32, yb: i32)
    requires
        ya <= yb <= f.y1,
    ensures
        le(map_y(f, yb as int), map_y(f, ya as int)),
        map_y(f, ya as int).wf(),
        map_y(f, yb as int).wf(),
{
    reveal(num);
    lemma_p2_consts();
    assert(p2(4) == 16 && p2(5) == 32) by {
        reveal_with_fuel(p2, 6);
    }
    let d = if span_w(f) >= span_h(f) {
        span_w(f)
    } else {
        span_h(f)
    };
    lemma_round_div_le(760, d as nat);
    let sc = scale(f);
    let na = (f.y1 - ya) as nat;
    let nb = (f.y1 - yb) as nat;
    lemma_mul_int(na, sc);
    lemma_mul_int(nb, sc);
    let big_a = (na * sc.m) as nat;
    let big_b = (nb * sc.m) as nat;
    assert(big_b <= big_a && big_a < P120) by (nonlinear_arith)
        requires
            big_a == na * sc.m,
            big_b == nb * sc.m,
            nb <= na < 0x2_0000_0000,
            sc.m < P53,
            P53 == 0x20_0000_0000_0000,
            P120 == 0x100_0000_0000_0000_0000_0000_0000_0000,
    ;
    lemma_p2_le(120, 0x400);
    let ta = round_bits(big_a, sc.e as int);
    let tb = round_bits(big_b, sc.e as int);
    lemma_round_mono(big_b, big_a, sc.e as int);
    lemma_round_bits_shape(big_a, sc.e as int);
    lemma_round_bits_shape(big_b, sc.e as int);
    lemma_blen_unique(16, 5);
    lemma_int_exact(16);
    let a16 = num(16);
    assert(a16.e == -48);
    let b = if ta.e <= tb.e && ta.e <= -48 {
        ta.e as int
    } else if tb.e <= -48 {
        tb.e as int
    } else {
        -48
    };
    lemma_add_at(a16, ta, b);
    lemma_add_at(a16, tb, b);
    crate::sfloat::lemma_le_at(tb, ta, b);
    let sa = scaled(a16, b);
    let sta = scaled(ta, b);
    let stb = scaled(tb, b);
    let wa = (-48 - b) as nat;
    let wt = (ta.e - b) as nat;
    lemma_p2_le(wa, 0x200);
    lemma_p2_le(wt, 0x200);
    lemma_p2_add(53, 0x200);
    lemma_p2_add(0x235, 1);
    assert(p2(1) == 2) by {
        reveal_with_fuel(p2, 2);
    }
    lemma_p2_le(0x236, 0x400);
    lemma_p2_pos(0x200);
    assert(sa < p2(0x235)) by (nonlinear_arith)
        requires
            sa == a16.m * p2(wa),
            a16.m < P53,
            p2(wa) <= p2(0x200),
            p2(0x200) >= 1,
            p2(0x235) == P53 * p2(0x200),
    ;
    assert(sta < p2(0x235)) by (nonlinear_arith)
        requires
            sta == ta.m * p2(wt),
            ta.m < P53,
            p2(wt) <= p2(0x200),
            p2(0x200) >= 1,
            p2(0x235) == P53 * p2(0x200),
    ;
    assert(sa + sta < p2(0x400));
    lemma_round_wf((sa + sta) as nat, b);
    lemma_round_wf((sa + stb) as nat, b);
    lemma_round_mono((sa + stb) as nat, (sa + sta) as nat, b);
}

/// Left stays left: of two points of the frame on one horizontal, the one
/// further right never lands further left on the canvas.
pub proof fn lemma_right_is_right(f: Rect, xa: i32, xb: i32)
    requires
        f.x0 <= xa <= xb,
    ensures
        le(map_x(f, xa as int), map_x(f, xb as int)),
        map_x(f, xa as int).wf(),
        map_x(f, xb as int).wf(),
{
    reveal(num);
    lemma_p2_consts();
    assert(p2(4) == 16 && p2(5) == 32) by {
        reveal_with_fuel(p2, 6);
    }
    let d = if span_w(f) >= span_h(f) {
        span_w(f)
    } else {
        span_h(f)
    };
    lemma_round_div_le(760, d as nat);
    let sc = scale(f);
    let na = (xb - f.x0) as nat;
    let nb = (xa - f.x0) as nat;
    lemma_mul_int(na, sc);
    lemma_mul_int(nb, sc);
    let big_a = (na * sc.m) as nat;
    let big_b = (nb * sc.m) as nat;
    assert(big_b <= big_a && big_a < P120) by (nonlinear_arith)
        requires
            big_a == na * sc.m,
            big_b == nb * sc.m,
            nb <= na < 0x2_0000_0000,
            sc.m < P53,
            P53 == 0x20_0000_0000_0000,
            P120 == 0x100_0000_0000_0000_0000_0000_0000_0000,
    ;
    lemma_p2_le(120, 0x400);
    let ta = round_bits(big_a, sc.e as int);
    let tb = round_bits(big_b, sc.e as int);
    lemma_round_mono(big_b, big_a, sc.e as int);
    lemma_round_bits_shape(big_a, sc.e as int);
    lemma_round_bits_shape(big_b, sc.e as int);
    lemma_blen_unique(16, 5);
    lemma_int_exact(16);
    let a16 = num(16);
    assert(a16.e == -48);
    let b = if ta.e <= tb.e && ta.e <= -48 {
        ta.e as int
    } else if tb.e <= -48 {
        tb.e as int
    } else {
        -48
    };
    lemma_add_at(a16, ta, b);
    lemma_add_at(a16, tb, b);
    crate::sfloat::lemma_le_at(tb, ta, b);
    let sa = scaled(a16, b);
    let sta = scaled(ta, b);
    let stb = scaled(tb, b);
    let wa = (-48 - b) as nat;
    let wt = (ta.e - b) as nat;
    lemma_p2_le(wa, 0x200);
    lemma_p2_le(wt, 0x200);
    lemma_p2_add(53, 0x200);
    lemma_p2_add(0x235, 1);
    assert(p2(1) == 2) by {
        reveal_with_fuel(p2, 2);
    }
    lemma_p2_le(0x236, 0x400);
    lemma_p2_pos(0x200);
    assert(sa < p2(0x235)) by (nonlinear_arith)
        requires
            sa == a16.m * p2(wa),
            a16.m < P53,
            p2(wa) <= p2(0x200),
            p2(0x200) >= 1,
            p2(0x235) == P53 * p2(0x200),
    ;
    assert(sta < p2(0x235)) by (nonlinear_arith)
        requires
            sta == ta.m * p2(wt),
            ta.m < P53,
            p2(wt) <= p2(0x200),
            p2(0x200) >= 1,
            p2(0x235) == P53 * p2(0x200),
    ;
    assert(sa + sta < p2(0x400));
    lemma_round_wf((sa + sta) as nat, b);
    lemma_round_wf((sa + stb) as nat, b);
    lemma_round_mono((sa + stb) as nat, (sa + sta) as nat, b);
}


/// A mark's red box covers exactly the mark on the canvas: its top-left
/// corner is the image of the mark's left edge `x0` and top edge `y1` (Y is
/// flipped), its width and height run from there to the images of `x1` and
/// `y0`, and the label sits just above that corner.
pub proof fn lemma_mark_box_covers(m: Mark, f: Rect)
    requires
        f.x0 <= m.r.x0 <= m.r.x1,
        m.r.y0 <= m.r.y1 <= f.y1,
    ensures
        le(map_x(f, m.r.x0 as int), map_x(f, m.r.x1 as int)),
        le(map_y(f, m.r.y1 as int), map_y(f, m.r.y0 as int)),
        mark_line(m, f) == "<rect x=\""@ + fmt_dbl(map_x(f, m.r.x0 as int), 1) + "\" y=\""@
            + fmt_dbl(map_y(f, m.r.y1 as int), 1) + "\" width=\""@ + fmt_dbl(
            sub_spec(map_x(f, m.r.x1 as int), map_x(f, m.r.x0 as int)),
            1,
        ) + "\" height=\""@ + fmt_dbl(
            sub_spec(map_y(f, m.r.y0 as int), map_y(f, m.r.y1 as int)),
            1,
        ) + "\" fill=\"none\" stroke=\"#d00\" stroke-width=\""@ + fmt_dbl(
            mul_spec(stroke_w(), num(2)),
            2,
        ) + "\"/>\n"@ + mark_label(
            map_x(f, m.r.x0 as int),
            map_y(f, m.r.y1 as int),
            m.label@,
        ),
{
    let ax = map_x(f, m.r.x0 as int);
    let bx = map_x(f, m.r.x1 as int);
    let ay = map_y(f, m.r.y0 as int);
    let by = map_y(f, m.r.y1 as int);
    lemma_right_is_right(f, m.r.x0, m.r.x1);
    lemma_up_is_up(f, m.r.y0, m.r.y1);
    assert(min_spec(ax, bx) == ax && max_spec(ax, bx) == bx);
    if le(ay, by) {
        lemma_le_antisym(ay, by);
    }
    assert(min_spec(ay, by) == by && max_spec(ay, by) == ay);
}

} // verus!
