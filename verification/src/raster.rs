//! Scanline rasterizer for the PNG thumbnail: every drawn shape is filled
//! into an RGB buffer, translucently, in element order.
//!
//! Boundaries and boxes are filled as polygons; a path becomes one
//! quadrilateral per segment, as wide as the path.  A polygon is filled
//! row by row with the even-odd rule: the row's centre line crosses the
//! edges at sorted `x` positions, and each pair of crossings spans pixels.
//!
//! All pixel geometry is binary64 arithmetic (`sfloat`), done exactly as
//! `f64` does it.

use vstd::prelude::*;
use crate::binary64::{
    Dbl, P120, P52, P53, blen, lemma_blen_le, lemma_blen_unique, lemma_div_range, lemma_int_exact,
    lemma_mul_int, lemma_round_mono, lemma_p2_add, lemma_p2_consts, lemma_p2_le, lemma_p2_pos,
    lemma_round_bits_nonzero, lemma_round_le, p2, rne_up, round_bits, round_div, scaled,
    val_le,
};
use crate::gds::Element;
use crate::geom::{Rect, bbox_of};
use crate::svg::{
    drawn, drawn_points, frame, keep, lemma_filter_drawn, lemma_frame_holds_shape, mark_points,
    on_layers, palette, palette_index, span_h, span_w,
};
use crate::sfloat::{
    Float, Rnd, clamp, fadd, fadd_exec, fdiv, fdiv_exec, fint, fint_exec, fle, fle_exec, flt, fmax,
    fmax_exec, fmin, fmin_exec, fmul, fmul_exec, fneg, fneg_exec, fsqrt, fsqrt_exec, fsub,
    fsub_exec, lemma_fle_trans, lemma_fsub_nonzero, lemma_le_zero, to_int,
    to_int_clamped,
};

verus! {

pub const I32_MAX: i64 = 0x7fff_ffff;

pub const I32_MIN: i64 = -0x8000_0000;

pub const U32_MAX: i64 = 0xffff_ffff;

/// `0.5`.
pub open spec fn half() -> Float {
    Float { neg: false, mag: Dbl { m: 0x10_0000_0000_0000, e: -53i64 } }
}

/// `1.0`.
pub open spec fn one() -> Float {
    Float { neg: false, mag: Dbl { m: 0x10_0000_0000_0000, e: -52i64 } }
}

/// `0.45`, the opacity of a filled polygon: the binary64 value nearest
/// `45 / 100`.
pub open spec fn fill_alpha() -> Float {
    Float { neg: false, mag: Dbl { m: 0x1c_cccc_cccc_cccd, e: -54i64 } }
}

/// `0.55`, the opacity of a path segment: nearest `55 / 100`.
pub open spec fn path_alpha() -> Float {
    Float { neg: false, mag: Dbl { m: 0x11_9999_9999_999a, e: -53i64 } }
}

/// `1e-6`, the shortest segment length a path divides by: nearest
/// `1 / 1000000`.
pub open spec fn tiny() -> Float {
    Float { neg: false, mag: Dbl { m: 0x10_c6f7_a0b5_ed8d, e: -72i64 } }
}

/// The literals are the nearest binary64 values to the decimals they spell.
pub proof fn lemma_literals()
    ensures
        fill_alpha().mag == round_div(45, 100),
        path_alpha().mag == round_div(55, 100),
        tiny().mag == round_div(1, 1000000),
{
    lemma_p2_consts();
    assert(p2(8) == 256) by {
        reveal_with_fuel(p2, 9);
    }
    assert(p2(20) == 1048576) by {
        reveal_with_fuel(p2, 21);
    }
    assert(p2(19) == 524288);
    assert(p2(5) == 32 && p2(6) == 64 && p2(7) == 128) by {
        reveal_with_fuel(p2, 9);
    }
    assert(p2(1) == 2 && p2(0) == 1) by {
        reveal_with_fuel(p2, 2);
    }
    lemma_p2_add(52, 19);
    assert(p2(54) == 2 * p2(53));
    assert(p2(72) == 2 * p2(71));
    lemma_blen_unique(45, 6);
    lemma_blen_unique(55, 6);
    lemma_blen_unique(100, 7);
    lemma_blen_unique(1, 1);
    lemma_blen_unique(1000000, 20);
    assert(fill_alpha().mag == round_div(45, 100));
    assert(path_alpha().mag == round_div(55, 100));
    assert(tiny().mag == round_div(1, 1000000));
}

/// A pixel-space point.
pub type Pt = (Float, Float);

/// The RGB colour of a layer, from the same palette as the SVG renderer.
pub open spec fn rgb(layer: i16) -> (u8, u8, u8) {
    rgb_at(palette_index(layer))
}

/// Palette entry `i` as RGB.
pub open spec fn rgb_at(i: int) -> (u8, u8, u8) {
    if i == 0 {
        (78, 121, 167)
    } else if i == 1 {
        (242, 142, 43)
    } else if i == 2 {
        (89, 161, 79)
    } else if i == 3 {
        (225, 87, 89)
    } else if i == 4 {
        (176, 122, 161)
    } else if i == 5 {
        (118, 183, 178)
    } else if i == 6 {
        (237, 201, 72)
    } else if i == 7 {
        (255, 157, 167)
    } else if i == 8 {
        (156, 117, 95)
    } else if i == 9 {
        (186, 176, 172)
    } else if i == 10 {
        (27, 158, 119)
    } else if i == 11 {
        (217, 95, 2)
    } else if i == 12 {
        (117, 112, 179)
    } else {
        (231, 41, 138)
    }
}

/// The region the picture frames: the bounding box of the drawn geometry,
/// or the unit square when nothing is drawn.
pub open spec fn png_frame(es: Seq<Element>, layers: Option<&[i16]>) -> Rect {
    match bbox_of(drawn_points(es, layers)) {
        Some(b) => b,
        None => Rect { x0: 0, y0: 0, x1: 1, y1: 1 },
    }
}

/// Pixels per database unit: `max_dim` over the larger span (each span at
/// least one unit).
pub open spec fn px_scale(f: Rect, max_dim: u32) -> Float {
    fdiv(
        fint(max_dim as int),
        fint(
            if span_w(f) >= span_h(f) {
                span_w(f)
            } else {
                span_h(f)
            },
        ),
    )
}

/// The most pixels a side may have: `max_dim`, or one when `max_dim` is 0.
pub open spec fn side_cap(max_dim: u32) -> int {
    if max_dim >= 1 {
        max_dim as int
    } else {
        1
    }
}

/// Pixels along a span: `(span * s).ceil()`, kept between 1 and `cap`.
pub open spec fn px_len(span: int, s: Float, cap: int) -> int {
    clamp(to_int(fmul(fint(span), s), Rnd::Ceil), 1, cap)
}

/// Image width: fitted into the `max_dim`-pixel square.
pub open spec fn png_w(f: Rect, max_dim: u32) -> int {
    px_len(span_w(f), px_scale(f, max_dim), side_cap(max_dim))
}

/// Image height: fitted into the `max_dim`-pixel square.
pub open spec fn png_h(f: Rect, max_dim: u32) -> int {
    px_len(span_h(f), px_scale(f, max_dim), side_cap(max_dim))
}

/// A database point in pixels: `((x - x0) * s, (y1 - y) * s)`, Y flipped.
pub open spec fn px_of(f: Rect, s: Float, p: (i32, i32)) -> Pt {
    (fmul(fint(p.0 - f.x0), s), fmul(fint(f.y1 - p.1), s))
}

/// Every vertex in pixels.
pub open spec fn px_poly(f: Rect, s: Float, ps: Seq<(i32, i32)>) -> Seq<Pt> {
    ps.map_values(|p: (i32, i32)| px_of(f, s, p))
}

/// Half a path's width in pixels, at least half a pixel.
pub open spec fn half_width(width: i32, s: Float) -> Float {
    fmax(fdiv(fmul(fint(width as int), s), fint(2)), half())
}

/// The normal of the segment from `a` to `b`, `hw` long:
/// `(-dy / len * hw, dx / len * hw)`, the length at least `1e-6`.
pub open spec fn seg_normal(a: Pt, b: Pt, hw: Float) -> (Float, Float) {
    let dx = fsub(b.0, a.0);
    let dy = fsub(b.1, a.1);
    let len = fmax(fsqrt(fadd(fmul(dx, dx), fmul(dy, dy))), tiny());
    (fmul(fdiv(fneg(dy), len), hw), fmul(fdiv(dx, len), hw))
}

/// The quadrilateral a path segment from `a` to `b` covers: the segment
/// pushed out by `hw` on both sides along its normal.
pub open spec fn seg_quad(a: Pt, b: Pt, hw: Float) -> Seq<Pt> {
    let (nx, ny) = seg_normal(a, b, hw);
    seq![
        (fadd(a.0, nx), fadd(a.1, ny)),
        (fadd(b.0, nx), fadd(b.1, ny)),
        (fsub(b.0, nx), fsub(b.1, ny)),
        (fsub(a.0, nx), fsub(a.1, ny)),
    ]
}

/// The lowest `y` of a polygon.
pub open spec fn min_y(poly: Seq<Pt>) -> Float
    decreases poly.len(),
{
    if poly.len() <= 1 {
        poly[0].1
    } else {
        fmin(min_y(poly.drop_last()), poly.last().1)
    }
}

/// The highest `y` of a polygon.
pub open spec fn max_y(poly: Seq<Pt>) -> Float
    decreases poly.len(),
{
    if poly.len() <= 1 {
        poly[0].1
    } else {
        fmax(max_y(poly.drop_last()), poly.last().1)
    }
}

/// The centre line of pixel row `py`.
pub open spec fn row_y(py: int) -> Float {
    fadd(fint(py), half())
}

/// Whether the edge from `a` to `b` crosses the line `y = yc` (half-open, so
/// a vertex on the line counts once).
pub open spec fn crosses(a: Pt, b: Pt, yc: Float) -> bool {
    (fle(a.1, yc) && flt(yc, b.1)) || (fle(b.1, yc) && flt(yc, a.1))
}

/// Where the edge from `a` to `b` meets `y = yc`.
pub open spec fn cross_x(a: Pt, b: Pt, yc: Float) -> Float {
    fadd(a.0, fmul(fdiv(fsub(yc, a.1), fsub(b.1, a.1)), fsub(b.0, a.0)))
}

/// The crossings of the first `i` edges with `y = yc`, edge by edge (edge
/// `k` joins vertex `k` to the next, the last one back to the first).
pub open spec fn crossings(poly: Seq<Pt>, yc: Float, i: nat) -> Seq<Float>
    decreases i,
{
    if i == 0 {
        seq![]
    } else {
        let a = poly[i - 1];
        let b = poly[i as int % poly.len() as int];
        let prev = crossings(poly, yc, (i - 1) as nat);
        if crosses(a, b, yc) {
            prev.push(cross_x(a, b, yc))
        } else {
            prev
        }
    }
}

/// `x` inserted into the sorted `s`, after every value not above it.
pub open spec fn insert_sorted(s: Seq<Float>, x: Float) -> Seq<Float>
    decreases s.len(),
{
    if s.len() == 0 {
        seq![x]
    } else if fle(s.last(), x) {
        s.push(x)
    } else {
        insert_sorted(s.drop_last(), x).push(s.last())
    }
}

/// `xs` sorted into increasing order.
pub open spec fn sorted(xs: Seq<Float>) -> Seq<Float>
    decreases xs.len(),
{
    if xs.len() == 0 {
        xs
    } else {
        insert_sorted(sorted(xs.drop_last()), xs.last())
    }
}

/// `dst * (1 - a) + src * a`, rounded and held to a byte.
pub open spec fn blend(dst: u8, src: u8, a: Float) -> u8 {
    clamp(to_int(fadd(fmul(fint(dst as int), fsub(one(), a)), fmul(fint(src as int), a)), Rnd::Round), 0, 255) as u8
}

/// The three bytes of the pixel at byte offset `i` blended toward `col`.
pub open spec fn blend_px(buf: Seq<u8>, i: int, col: (u8, u8, u8), a: Float) -> Seq<u8> {
    let b0 = buf.update(i, blend(buf[i], col.0, a));
    let b1 = b0.update(i + 1, blend(b0[i + 1], col.1, a));
    b1.update(i + 2, blend(b1[i + 2], col.2, a))
}

/// Pixels `px .. xb` of row `py` blended, left to right.
pub open spec fn fill_span(
    buf: Seq<u8>,
    w: int,
    py: int,
    px: int,
    xb: int,
    col: (u8, u8, u8),
    a: Float,
) -> Seq<u8>
    decreases xb - px,
{
    if px >= xb {
        buf
    } else {
        fill_span(blend_px(buf, (py * w + px) * 3, col, a), w, py, px + 1, xb, col, a)
    }
}

/// First pixel of a span starting at crossing `x`.
pub open spec fn span_start(x: Float) -> int {
    clamp(to_int(x, Rnd::Round), 0, I32_MAX as int)
}

/// Pixel after a span ending at crossing `x`, in an image `w` wide.
pub open spec fn span_end(x: Float, w: int) -> int {
    clamp(
        to_int(x, Rnd::Round),
        I32_MIN as int,
        if w < I32_MAX {
            w
        } else {
            I32_MAX as int
        },
    )
}

/// The spans between crossings `i` and `i + 1`, `i + 2` and `i + 3`, ...
pub open spec fn fill_pairs(
    buf: Seq<u8>,
    w: int,
    py: int,
    xs: Seq<Float>,
    i: nat,
    col: (u8, u8, u8),
    a: Float,
) -> Seq<u8>
    decreases xs.len() - i,
{
    if i + 1 >= xs.len() {
        buf
    } else {
        fill_pairs(
            fill_span(buf, w, py, span_start(xs[i as int]), span_end(xs[i + 1 as int], w), col, a),
            w,
            py,
            xs,
            i + 2,
            col,
            a,
        )
    }
}

/// Row `py` of a polygon filled, even-odd.
pub open spec fn fill_row(
    buf: Seq<u8>,
    w: int,
    poly: Seq<Pt>,
    py: int,
    col: (u8, u8, u8),
    a: Float,
) -> Seq<u8> {
    fill_pairs(buf, w, py, sorted(crossings(poly, row_y(py), poly.len())), 0, col, a)
}

/// Rows `py .. yb` filled, top to bottom.
pub open spec fn fill_rows(
    buf: Seq<u8>,
    w: int,
    poly: Seq<Pt>,
    py: int,
    yb: int,
    col: (u8, u8, u8),
    a: Float,
) -> Seq<u8>
    decreases yb - py,
{
    if py >= yb {
        buf
    } else {
        fill_rows(fill_row(buf, w, poly, py, col, a), w, poly, py + 1, yb, col, a)
    }
}

/// First row a polygon touches.
pub open spec fn rows_start(poly: Seq<Pt>) -> int {
    clamp(to_int(min_y(poly), Rnd::Floor), 0, I32_MAX as int)
}

/// Row after the last one a polygon touches, in an image `h` high.
pub open spec fn rows_end(poly: Seq<Pt>, h: int) -> int {
    clamp(
        to_int(max_y(poly), Rnd::Ceil),
        I32_MIN as int,
        if h < I32_MAX {
            h
        } else {
            I32_MAX as int
        },
    )
}

/// A polygon filled into a `w` by `h` image (nothing for fewer than three
/// vertices).
pub open spec fn fill_poly(
    buf: Seq<u8>,
    w: int,
    h: int,
    poly: Seq<Pt>,
    col: (u8, u8, u8),
    a: Float,
) -> Seq<u8> {
    if poly.len() < 3 {
        buf
    } else {
        fill_rows(buf, w, poly, rows_start(poly), rows_end(poly, h), col, a)
    }
}

/// Path segments `i, i + 1, ...` filled as quadrilaterals.
pub open spec fn fill_segs(
    buf: Seq<u8>,
    w: int,
    h: int,
    px: Seq<Pt>,
    hw: Float,
    i: nat,
    col: (u8, u8, u8),
) -> Seq<u8>
    decreases px.len() - i,
{
    if i + 1 >= px.len() {
        buf
    } else {
        fill_segs(
            fill_poly(buf, w, h, seg_quad(px[i as int], px[i + 1 as int], hw), col, path_alpha()),
            w,
            h,
            px,
            hw,
            i + 1,
            col,
        )
    }
}

/// One element painted (nothing unless it is drawn).
pub open spec fn paint(
    buf: Seq<u8>,
    w: int,
    h: int,
    e: Element,
    layers: Option<&[i16]>,
    f: Rect,
    s: Float,
) -> Seq<u8> {
    if !drawn(e, layers) {
        buf
    } else {
        match e {
            Element::Path { layer, width, pts, .. } => fill_segs(
                buf,
                w,
                h,
                px_poly(f, s, pts@),
                half_width(width, s),
                0,
                rgb(layer),
            ),
            _ => fill_poly(buf, w, h, px_poly(f, s, e.points()), rgb(e.layer_of()), fill_alpha()),
        }
    }
}

/// Elements `i, i + 1, ...` painted in order.
pub open spec fn paint_from(
    buf: Seq<u8>,
    w: int,
    h: int,
    es: Seq<Element>,
    i: nat,
    layers: Option<&[i16]>,
    f: Rect,
    s: Float,
) -> Seq<u8>
    decreases es.len() - i,
{
    if i >= es.len() {
        buf
    } else {
        paint_from(paint(buf, w, h, es[i as int], layers, f, s), w, h, es, i + 1, layers, f, s)
    }
}

/// The background: every byte `250` (`#fafafa`).
pub open spec fn background(n: nat) -> Seq<u8> {
    Seq::new(n, |i: int| 250u8)
}

/// The raster of a cell with the region `f` fitted into the picture: its
/// RGB bytes, row by row.
pub open spec fn raster_in(
    es: Seq<Element>,
    layers: Option<&[i16]>,
    max_dim: u32,
    f: Rect,
) -> Seq<u8> {
    let s = px_scale(f, max_dim);
    let w = png_w(f, max_dim);
    let h = png_h(f, max_dim);
    paint_from(background((w * h * 3) as nat), w, h, es, 0, layers, f, s)
}

/// The raster of a cell, its whole drawn geometry fitted into the picture.
pub open spec fn raster(es: Seq<Element>, layers: Option<&[i16]>, max_dim: u32) -> Seq<u8> {
    raster_in(es, layers, max_dim, png_frame(es, layers))
}

pub fn half_exec() -> (r: Float)
    ensures
        r == half(),
        r.within(64),
{
    Float { neg: false, mag: Dbl { m: 0x10_0000_0000_0000, e: -53 } }
}

pub fn one_exec() -> (r: Float)
    ensures
        r == one(),
        r.within(64),
{
    Float { neg: false, mag: Dbl { m: 0x10_0000_0000_0000, e: -52 } }
}

pub fn fill_alpha_exec() -> (r: Float)
    ensures
        r == fill_alpha(),
        r.within(64),
{
    Float { neg: false, mag: Dbl { m: 0x1c_cccc_cccc_cccd, e: -54 } }
}

pub fn path_alpha_exec() -> (r: Float)
    ensures
        r == path_alpha(),
        r.within(64),
{
    Float { neg: false, mag: Dbl { m: 0x11_9999_9999_999a, e: -53 } }
}

pub fn tiny_exec() -> (r: Float)
    ensures
        r == tiny(),
        r.within(80),
{
    Float { neg: false, mag: Dbl { m: 0x10_c6f7_a0b5_ed8d, e: -72 } }
}

/// The colour of a layer (`PALETTE[(layer as usize) % 14]`).
pub fn rgb_exec(layer: i16) -> (c: (u8, u8, u8))
    ensures
        c == rgb(layer),
{
    let l = layer as i32;
    let i: i32 = if l >= 0 {
        l % 14
    } else {
        (l + 32776) % 14
    };
    assert(i == palette_index(layer));
    if i == 0 {
        (78, 121, 167)
    } else if i == 1 {
        (242, 142, 43)
    } else if i == 2 {
        (89, 161, 79)
    } else if i == 3 {
        (225, 87, 89)
    } else if i == 4 {
        (176, 122, 161)
    } else if i == 5 {
        (118, 183, 178)
    } else if i == 6 {
        (237, 201, 72)
    } else if i == 7 {
        (255, 157, 167)
    } else if i == 8 {
        (156, 117, 95)
    } else if i == 9 {
        (186, 176, 172)
    } else if i == 10 {
        (27, 158, 119)
    } else if i == 11 {
        (217, 95, 2)
    } else if i == 12 {
        (117, 112, 179)
    } else {
        (231, 41, 138)
    }
}

/// A value in the range of binary64: every finite `f64` (the largest
/// `(2^53 - 1) * 2^971`, the smallest nonzero `2^-1074`, that is
/// `2^52 * 2^-1126`) has an exponent of size at most 1126 here.
pub open spec fn f64_range(x: Float) -> bool {
    x.within(1126)
}

/// An opacity, any binary64 value, with `1 - a` computed once.
pub open spec fn alpha_ok(a: Float, oma: Float) -> bool {
    &&& f64_range(a)
    &&& oma == fsub(one(), a)
    &&& oma.within(2316)
}

pub fn blend_exec(dst: u8, src: u8, a: Float, oma: Float) -> (r: u8)
    requires
        alpha_ok(a, oma),
    ensures
        r == blend(dst, src, a),
{
    let d = fint_exec(dst as i64);
    let t1 = fmul_exec(d, oma);
    let sv = fint_exec(src as i64);
    let t2 = fmul_exec(sv, a);
    let v = fadd_exec(t1, t2);
    let n = to_int_clamped(v, Rnd::Round, 0, 255);
    n as u8
}

pub fn blend_px_exec(buf: &mut Vec<u8>, i: usize, col: (u8, u8, u8), a: Float, oma: Float)
    requires
        i + 2 < old(buf)@.len(),
        alpha_ok(a, oma),
    ensures
        final(buf)@ == blend_px(old(buf)@, i as int, col, a),
{
    let n = buf.len();
    assert(i + 2 < n);
    let v0 = blend_exec(buf[i], col.0, a, oma);
    buf.set(i, v0);
    let v1 = blend_exec(buf[i + 1], col.1, a, oma);
    buf.set(i + 1, v1);
    let v2 = blend_exec(buf[i + 2], col.2, a, oma);
    buf.set(i + 2, v2);
}

/// A `w` by `h` RGB buffer.
pub open spec fn image_ok(buf: Seq<u8>, w: u32, h: u32) -> bool {
    &&& buf.len() == w * h * 3
    &&& w * h * 3 <= U32_MAX
}

pub fn fill_span_exec(
    buf: &mut Vec<u8>,
    w: u32,
    h: u32,
    py: i64,
    xa: i64,
    xb: i64,
    col: (u8, u8, u8),
    a: Float,
    oma: Float,
)
    requires
        image_ok(old(buf)@, w, h),
        0 <= py < h,
        0 <= xa,
        xb <= w,
        alpha_ok(a, oma),
    ensures
        final(buf)@ == fill_span(old(buf)@, w as int, py as int, xa as int, xb as int, col, a),
        image_ok(final(buf)@, w, h),
{
    let ghost target = fill_span(buf@, w as int, py as int, xa as int, xb as int, col, a);
    let mut px = xa;
    while px < xb
        invariant
            image_ok(buf@, w, h),
            0 <= py < h,
            0 <= xa <= px,
            xb <= w,
            alpha_ok(a, oma),
            fill_span(buf@, w as int, py as int, px as int, xb as int, col, a) == target,
        decreases xb - px,
    {
        proof {
            let wi = w as int;
            let hi = h as int;
            let y = py as int;
            let x = px as int;
            assert((y * wi + x) * 3 + 2 < wi * hi * 3) by (nonlinear_arith)
                requires
                    0 <= y < hi,
                    0 <= x < wi,
            ;
            assert(0 <= y * wi + x) by (nonlinear_arith)
                requires
                    0 <= y,
                    0 <= x,
                    0 <= wi,
            ;
        }
        let idx = ((py as u64 * w as u64 + px as u64) * 3) as usize;
        blend_px_exec(buf, idx, col, a, oma);
        px = px + 1;
    }
}

/// Crossings the renderer computes, all of bounded exponent.
pub open spec fn xs_ok(xs: Seq<Float>) -> bool {
    forall|i: int| 0 <= i < xs.len() ==> (#[trigger] xs[i]).within(0x20_0000)
}

pub fn fill_pairs_exec(
    buf: &mut Vec<u8>,
    w: u32,
    h: u32,
    py: i64,
    xs: &Vec<Float>,
    col: (u8, u8, u8),
    a: Float,
    oma: Float,
)
    requires
        image_ok(old(buf)@, w, h),
        0 <= py < h,
        xs_ok(xs@),
        alpha_ok(a, oma),
    ensures
        final(buf)@ == fill_pairs(old(buf)@, w as int, py as int, xs@, 0, col, a),
        image_ok(final(buf)@, w, h),
{
    let ghost target = fill_pairs(buf@, w as int, py as int, xs@, 0, col, a);
    let hi: i64 = if (w as i64) < I32_MAX {
        w as i64
    } else {
        I32_MAX
    };
    let mut i: usize = 0;
    while xs.len() - i >= 2
        invariant
            image_ok(buf@, w, h),
            0 <= py < h,
            xs_ok(xs@),
            alpha_ok(a, oma),
            i <= xs@.len(),
            hi == (if w < I32_MAX {
                w as int
            } else {
                I32_MAX as int
            }),
            fill_pairs(buf@, w as int, py as int, xs@, i as nat, col, a) == target,
        decreases xs@.len() - i,
    {
        assert(xs@[i as int].within(0x20_0000));
        assert(xs@[i + 1].within(0x20_0000));
        let xa = to_int_clamped(xs[i], Rnd::Round, 0, I32_MAX);
        let xb = to_int_clamped(xs[i + 1], Rnd::Round, I32_MIN, hi);
        fill_span_exec(buf, w, h, py, xa, xb, col, a, oma);
        i = i + 2;
    }
}

/// Points whose coordinates all have exponents of size at most `k`.
pub open spec fn pts_ok(ps: Seq<Pt>, k: int) -> bool {
    forall|i: int| 0 <= i < ps.len() ==> (#[trigger] ps[i]).0.within(k) && ps[i].1.within(k)
}

pub fn crosses_exec(a: Pt, b: Pt, yc: Float) -> (r: bool)
    requires
        a.1.wf(),
        b.1.wf(),
        yc.wf(),
    ensures
        r == crosses(a, b, yc),
{
    (fle_exec(a.1, yc) && !fle_exec(b.1, yc)) || (fle_exec(b.1, yc) && !fle_exec(a.1, yc))
}

pub fn cross_x_exec(a: Pt, b: Pt, yc: Float) -> (r: Float)
    requires
        a.0.within(0x1_0000),
        a.1.within(0x1_0000),
        b.0.within(0x1_0000),
        b.1.within(0x1_0000),
        yc.within(192),
        crosses(a, b, yc),
    ensures
        r == cross_x(a, b, yc),
        r.within(0x20_0000),
{
    proof {
        if fle(a.1, yc) && flt(yc, b.1) {
            if fle(b.1, a.1) {
                lemma_fle_trans(b.1, a.1, yc);
            }
        } else {
            if fle(a.1, b.1) {
                lemma_fle_trans(a.1, b.1, yc);
            }
        }
        lemma_fsub_nonzero(b.1, a.1);
    }
    let num = fsub_exec(yc, a.1);
    let den = fsub_exec(b.1, a.1);
    let q = fdiv_exec(num, den);
    let run = fsub_exec(b.0, a.0);
    let t = fmul_exec(q, run);
    fadd_exec(a.0, t)
}

pub fn crossings_exec(poly: &Vec<Pt>, yc: Float) -> (xs: Vec<Float>)
    requires
        poly@.len() >= 1,
        pts_ok(poly@, 0x1_0000),
        yc.within(192),
    ensures
        xs@ == crossings(poly@, yc, poly@.len()),
        xs_ok(xs@),
{
    let n = poly.len();
    let mut xs: Vec<Float> = Vec::new();
    let mut i: usize = 0;
    while i < n
        invariant
            n == poly@.len(),
            n >= 1,
            i <= n,
            pts_ok(poly@, 0x1_0000),
            yc.within(192),
            xs@ == crossings(poly@, yc, i as nat),
            xs_ok(xs@),
        decreases n - i,
    {
        let a = poly[i];
        let j = (i + 1) % n;
        let b = poly[j];
        assert(poly@[i as int].0.within(0x1_0000));
        assert(poly@[j as int].0.within(0x1_0000));
        assert(((i + 1) as nat) - 1 == i);
        if crosses_exec(a, b, yc) {
            let x = cross_x_exec(a, b, yc);
            xs.push(x);
        }
        i = i + 1;
    }
    xs
}

/// Inserting `x` where it belongs: after the values not above it, before
/// the ones above it.
pub proof fn lemma_insert_sorted_at(s: Seq<Float>, x: Float, k: int)
    requires
        0 <= k <= s.len(),
        k == 0 || fle(s[k - 1], x),
        forall|j: int| k <= j < s.len() ==> !fle(#[trigger] s[j], x),
    ensures
        insert_sorted(s, x) == s.insert(k, x),
    decreases s.len(),
{
    if s.len() == 0 {
        assert(s.insert(k, x) =~= seq![x]);
    } else if k == s.len() {
        assert(s.insert(k, x) =~= s.push(x));
    } else {
        let t = s.drop_last();
        assert(!fle(s[s.len() - 1], x));
        assert forall|j: int| k <= j < t.len() implies !fle(#[trigger] t[j], x) by {
            assert(t[j] == s[j]);
        }
        if k > 0 {
            assert(t[k - 1] == s[k - 1]);
        }
        lemma_insert_sorted_at(t, x, k);
        assert(t.insert(k, x).push(s.last()) =~= s.insert(k, x));
    }
}

pub fn insert_exec(v: &mut Vec<Float>, x: Float)
    requires
        xs_ok(old(v)@),
        x.within(0x20_0000),
    ensures
        final(v)@ == insert_sorted(old(v)@, x),
        xs_ok(final(v)@),
{
    let n = v.len();
    let mut k: usize = n;
    let mut done = false;
    while !done && k > 0
        invariant
            n == v@.len(),
            k <= n,
            xs_ok(v@),
            x.wf(),
            forall|j: int| k <= j < n ==> !fle(#[trigger] v@[j], x),
            done ==> (k > 0 && fle(v@[k - 1], x)),
        decreases k + (if done {
            0int
        } else {
            1int
        }),
    {
        assert(v@[k - 1].within(0x20_0000));
        if fle_exec(v[k - 1], x) {
            done = true;
        } else {
            k = k - 1;
        }
    }
    proof {
        lemma_insert_sorted_at(v@, x, k as int);
    }
    let ghost before = v@;
    v.insert(k, x);
    assert forall|i: int| 0 <= i < v@.len() implies (#[trigger] v@[i]).within(0x20_0000) by {
        if i < k {
            assert(v@[i] == before[i]);
        } else if i > k {
            assert(v@[i] == before[i - 1]);
        }
    }
}

pub fn sort_exec(xs: &Vec<Float>) -> (out: Vec<Float>)
    requires
        xs_ok(xs@),
    ensures
        out@ == sorted(xs@),
        xs_ok(out@),
{
    let mut out: Vec<Float> = Vec::new();
    let mut i: usize = 0;
    while i < xs.len()
        invariant
            i <= xs@.len(),
            xs_ok(xs@),
            xs_ok(out@),
            out@ == sorted(xs@.subrange(0, i as int)),
        decreases xs@.len() - i,
    {
        let ghost sub1 = xs@.subrange(0, i as int + 1);
        assert(sub1.drop_last() == xs@.subrange(0, i as int));
        assert(sub1.last() == xs@[i as int]);
        assert(xs@[i as int].within(0x20_0000));
        insert_exec(&mut out, xs[i]);
        i = i + 1;
    }
    assert(xs@.subrange(0, i as int) == xs@);
    out
}

pub fn fill_row_exec(
    buf: &mut Vec<u8>,
    w: u32,
    h: u32,
    py: i64,
    poly: &Vec<Pt>,
    col: (u8, u8, u8),
    a: Float,
    oma: Float,
)
    requires
        image_ok(old(buf)@, w, h),
        0 <= py < h,
        poly@.len() >= 1,
        pts_ok(poly@, 0x1_0000),
        alpha_ok(a, oma),
    ensures
        final(buf)@ == fill_row(old(buf)@, w as int, poly@, py as int, col, a),
        image_ok(final(buf)@, w, h),
{
    let fy = fint_exec(py);
    let yc = fadd_exec(fy, half_exec());
    let xs = crossings_exec(poly, yc);
    let ss = sort_exec(&xs);
    fill_pairs_exec(buf, w, h, py, &ss, col, a, oma);
}

pub fn min_y_exec(poly: &Vec<Pt>) -> (r: Float)
    requires
        poly@.len() >= 1,
        pts_ok(poly@, 0x1_0000),
    ensures
        r == min_y(poly@),
        r.within(0x1_0000),
{
    let mut r = poly[0].1;
    assert(poly@[0].1.within(0x1_0000));
    let mut i: usize = 1;
    assert(min_y(poly@.subrange(0, 1)) == poly@[0].1);
    while i < poly.len()
        invariant
            1 <= i <= poly@.len(),
            pts_ok(poly@, 0x1_0000),
            r == min_y(poly@.subrange(0, i as int)),
            r.within(0x1_0000),
        decreases poly@.len() - i,
    {
        let ghost sub1 = poly@.subrange(0, i as int + 1);
        assert(sub1.drop_last() == poly@.subrange(0, i as int));
        assert(sub1.last() == poly@[i as int]);
        assert(poly@[i as int].1.within(0x1_0000));
        r = fmin_exec(r, poly[i].1);
        i = i + 1;
    }
    assert(poly@.subrange(0, i as int) == poly@);
    r
}

pub fn max_y_exec(poly: &Vec<Pt>) -> (r: Float)
    requires
        poly@.len() >= 1,
        pts_ok(poly@, 0x1_0000),
    ensures
        r == max_y(poly@),
        r.within(0x1_0000),
{
    let mut r = poly[0].1;
    assert(poly@[0].1.within(0x1_0000));
    let mut i: usize = 1;
    assert(max_y(poly@.subrange(0, 1)) == poly@[0].1);
    while i < poly.len()
        invariant
            1 <= i <= poly@.len(),
            pts_ok(poly@, 0x1_0000),
            r == max_y(poly@.subrange(0, i as int)),
            r.within(0x1_0000),
        decreases poly@.len() - i,
    {
        let ghost sub1 = poly@.subrange(0, i as int + 1);
        assert(sub1.drop_last() == poly@.subrange(0, i as int));
        assert(sub1.last() == poly@[i as int]);
        assert(poly@[i as int].1.within(0x1_0000));
        r = fmax_exec(r, poly[i].1);
        i = i + 1;
    }
    assert(poly@.subrange(0, i as int) == poly@);
    r
}

/// Fills a pixel-space polygon, even-odd, blending with opacity `a`.
pub fn fill_poly_exec(
    buf: &mut Vec<u8>,
    w: u32,
    h: u32,
    poly: &Vec<Pt>,
    col: (u8, u8, u8),
    a: Float,
)
    requires
        image_ok(old(buf)@, w, h),
        pts_ok(poly@, 0x1_0000),
        f64_range(a),
    ensures
        final(buf)@ == fill_poly(old(buf)@, w as int, h as int, poly@, col, a),
        image_ok(final(buf)@, w, h),
{
    if poly.len() < 3 {
        return;
    }
    let oma = fsub_exec(one_exec(), a);
    let lo = min_y_exec(poly);
    let hi = max_y_exec(poly);
    let ya = to_int_clamped(lo, Rnd::Floor, 0, I32_MAX);
    let top: i64 = if (h as i64) < I32_MAX {
        h as i64
    } else {
        I32_MAX
    };
    let yb = to_int_clamped(hi, Rnd::Ceil, I32_MIN, top);
    let ghost target = fill_rows(buf@, w as int, poly@, ya as int, yb as int, col, a);
    let mut py = ya;
    while py < yb
        invariant
            image_ok(buf@, w, h),
            pts_ok(poly@, 0x1_0000),
            poly@.len() >= 3,
            alpha_ok(a, oma),
            0 <= ya <= py,
            yb <= h,
            fill_rows(buf@, w as int, poly@, py as int, yb as int, col, a) == target,
        decreases yb - py,
    {
        fill_row_exec(buf, w, h, py, poly, col, a, oma);
        py = py + 1;
    }
}

/// A scale the renderer computes.
pub open spec fn scale_ok(s: Float) -> bool {
    s.within(170)
}

pub fn px_of_exec(f: Rect, s: Float, p: (i32, i32)) -> (r: Pt)
    requires
        scale_ok(s),
    ensures
        r == px_of(f, s, p),
        r.0.within(448),
        r.1.within(448),
{
    let dx = fint_exec(p.0 as i64 - f.x0 as i64);
    let dy = fint_exec(f.y1 as i64 - p.1 as i64);
    (fmul_exec(dx, s), fmul_exec(dy, s))
}

pub fn px_poly_exec(f: Rect, s: Float, pts: &Vec<(i32, i32)>) -> (v: Vec<Pt>)
    requires
        scale_ok(s),
    ensures
        v@ == px_poly(f, s, pts@),
        pts_ok(v@, 448),
{
    let mut v: Vec<Pt> = Vec::new();
    let mut i: usize = 0;
    while i < pts.len()
        invariant
            i <= pts@.len(),
            scale_ok(s),
            v@ == pts@.subrange(0, i as int).map_values(|p: (i32, i32)| px_of(f, s, p)),
            pts_ok(v@, 448),
        decreases pts@.len() - i,
    {
        let q = px_of_exec(f, s, pts[i]);
        v.push(q);
        i = i + 1;
        assert(v@ =~= pts@.subrange(0, i as int).map_values(|p: (i32, i32)| px_of(f, s, p)));
    }
    assert(pts@.subrange(0, i as int) == pts@);
    v
}

pub fn half_width_exec(width: i32, s: Float) -> (r: Float)
    requires
        scale_ok(s),
    ensures
        r == half_width(width, s),
        r.within(960),
{
    let t = fmul_exec(fint_exec(width as i64), s);
    let two = fint_exec(2);
    proof {
        crate::binary64::lemma_round_bits_nonzero(2, 0);
    }
    let hw = fdiv_exec(t, two);
    fmax_exec(hw, half_exec())
}

pub fn seg_normal_exec(a: Pt, b: Pt, hw: Float) -> (n: (Float, Float))
    requires
        a.0.within(448),
        a.1.within(448),
        b.0.within(448),
        b.1.within(448),
        hw.within(960),
    ensures
        n == seg_normal(a, b, hw),
        n.0.within(32704),
        n.1.within(32704),
{
    let dx = fsub_exec(b.0, a.0);
    let dy = fsub_exec(b.1, a.1);
    let sq = fadd_exec(fmul_exec(dx, dx), fmul_exec(dy, dy));
    let root = fsqrt_exec(sq);
    let t = tiny_exec();
    proof {
        lemma_le_zero(t.mag);
    }
    let len = fmax_exec(root, t);
    let nx = fmul_exec(fdiv_exec(fneg_exec(dy), len), hw);
    let ny = fmul_exec(fdiv_exec(dx, len), hw);
    (nx, ny)
}

pub fn seg_quad_exec(a: Pt, b: Pt, hw: Float) -> (v: Vec<Pt>)
    requires
        a.0.within(448),
        a.1.within(448),
        b.0.within(448),
        b.1.within(448),
        hw.within(960),
    ensures
        v@ == seg_quad(a, b, hw),
        pts_ok(v@, 0x1_0000),
{
    let (nx, ny) = seg_normal_exec(a, b, hw);
    let mut v: Vec<Pt> = Vec::new();
    v.push((fadd_exec(a.0, nx), fadd_exec(a.1, ny)));
    v.push((fadd_exec(b.0, nx), fadd_exec(b.1, ny)));
    v.push((fsub_exec(b.0, nx), fsub_exec(b.1, ny)));
    v.push((fsub_exec(a.0, nx), fsub_exec(a.1, ny)));
    assert(v@ =~= seg_quad(a, b, hw));
    v
}

pub fn fill_segs_exec(
    buf: &mut Vec<u8>,
    w: u32,
    h: u32,
    px: &Vec<Pt>,
    hw: Float,
    col: (u8, u8, u8),
)
    requires
        image_ok(old(buf)@, w, h),
        pts_ok(px@, 448),
        hw.within(960),
    ensures
        final(buf)@ == fill_segs(old(buf)@, w as int, h as int, px@, hw, 0, col),
        image_ok(final(buf)@, w, h),
{
    let ghost target = fill_segs(buf@, w as int, h as int, px@, hw, 0, col);
    let alpha = path_alpha_exec();
    let mut i: usize = 0;
    while px.len() - i >= 2
        invariant
            image_ok(buf@, w, h),
            pts_ok(px@, 448),
            hw.within(960),
            alpha == path_alpha(),
            alpha.within(64),
            i <= px@.len(),
            fill_segs(buf@, w as int, h as int, px@, hw, i as nat, col) == target,
        decreases px@.len() - i,
    {
        assert(px@[i as int].0.within(448));
        assert(px@[i + 1].0.within(448));
        let quad = seg_quad_exec(px[i], px[i + 1], hw);
        fill_poly_exec(buf, w, h, &quad, col, alpha);
        i = i + 1;
    }
}

pub fn paint_exec(
    buf: &mut Vec<u8>,
    w: u32,
    h: u32,
    e: &Element,
    layers: Option<&[i16]>,
    f: Rect,
    s: Float,
)
    requires
        image_ok(old(buf)@, w, h),
        scale_ok(s),
    ensures
        final(buf)@ == paint(old(buf)@, w as int, h as int, *e, layers, f, s),
        image_ok(final(buf)@, w, h),
{
    match e {
        Element::Path { layer, width, pts, .. } => {
            if keep(*layer, layers) {
                let px = px_poly_exec(f, s, pts);
                let hw = half_width_exec(*width, s);
                fill_segs_exec(buf, w, h, &px, hw, rgb_exec(*layer));
            }
        },
        Element::Boundary { layer, pts, .. } => {
            if keep(*layer, layers) {
                let poly = px_poly_exec(f, s, pts);
                fill_poly_exec(buf, w, h, &poly, rgb_exec(*layer), fill_alpha_exec());
            }
        },
        Element::Box { layer, pts, .. } => {
            if keep(*layer, layers) {
                let poly = px_poly_exec(f, s, pts);
                fill_poly_exec(buf, w, h, &poly, rgb_exec(*layer), fill_alpha_exec());
            }
        },
        Element::Text { .. } => {},
    }
}

/// Paints every element of a cell, in order.
pub fn paint_all(
    buf: &mut Vec<u8>,
    w: u32,
    h: u32,
    es: &Vec<Element>,
    layers: Option<&[i16]>,
    f: Rect,
    s: Float,
)
    requires
        image_ok(old(buf)@, w, h),
        scale_ok(s),
    ensures
        final(buf)@ == paint_from(old(buf)@, w as int, h as int, es@, 0, layers, f, s),
        image_ok(final(buf)@, w, h),
{
    let ghost target = paint_from(buf@, w as int, h as int, es@, 0, layers, f, s);
    let mut i: usize = 0;
    while i < es.len()
        invariant
            image_ok(buf@, w, h),
            scale_ok(s),
            i <= es@.len(),
            paint_from(buf@, w as int, h as int, es@, i as nat, layers, f, s) == target,
        decreases es@.len() - i,
    {
        paint_exec(buf, w, h, &es[i], layers, f, s);
        i = i + 1;
    }
}

/// Painting a sequence with one more element at its end paints that element
/// last.
proof fn lemma_paint_from_push(
    buf: Seq<u8>,
    w: int,
    h: int,
    t: Seq<Element>,
    x: Element,
    i: nat,
    layers: Option<&[i16]>,
    f: Rect,
    s: Float,
)
    requires
        i <= t.len(),
    ensures
        paint_from(buf, w, h, t.push(x), i, layers, f, s) == paint(
            paint_from(buf, w, h, t, i, layers, f, s),
            w,
            h,
            x,
            layers,
            f,
            s,
        ),
    decreases t.len() - i,
{
    if i < t.len() {
        assert(t.push(x)[i as int] == t[i as int]);
        lemma_paint_from_push(paint(buf, w, h, t[i as int], layers, f, s), w, h, t, x, i + 1, layers, f, s);
    } else {
        assert(t.push(x)[i as int] == x);
        let b1 = paint(buf, w, h, x, layers, f, s);
        assert(paint_from(b1, w, h, t.push(x), i + 1, layers, f, s) == b1);
    }
}

proof fn lemma_filter_paint(
    buf: Seq<u8>,
    w: int,
    h: int,
    es: Seq<Element>,
    ls: &[i16],
    f: Rect,
    s: Float,
)
    ensures
        paint_from(buf, w, h, es.filter(on_layers(ls@)), 0, None, f, s) == paint_from(
            buf,
            w,
            h,
            es,
            0,
            Some(ls),
            f,
            s,
        ),
    decreases es.len(),
{
    reveal(Seq::filter);
    if es.len() > 0 {
        let p = on_layers(ls@);
        let t = es.drop_last();
        let x = es.last();
        lemma_filter_paint(buf, w, h, t, ls, f, s);
        assert(es == t.push(x));
        lemma_paint_from_push(buf, w, h, t, x, 0, Some(ls), f, s);
        let ft = t.filter(p);
        if p(x) {
            assert(es.filter(p) == ft.push(x));
            lemma_paint_from_push(buf, w, h, ft, x, 0, None, f, s);
        } else {
            assert(es.filter(p) == ft);
        }
    }
}

/// The thumbnail under a layer filter is the thumbnail of the cell with
/// every shape on another layer taken out: same frame, same pixels.
pub proof fn lemma_layer_filter_png(es: Seq<Element>, kept: Seq<Element>, ls: &[i16], max_dim: u32)
    requires
        kept == es.filter(on_layers(ls@)),
    ensures
        png_frame(es, Some(ls)) == png_frame(kept, None),
        raster(es, Some(ls), max_dim) == raster(kept, None, max_dim),
{
    lemma_filter_drawn(es, ls, Rect { x0: 0, y0: 0, x1: 1, y1: 1 });
    let f = png_frame(es, Some(ls));
    let w = png_w(f, max_dim);
    let h = png_h(f, max_dim);
    lemma_filter_paint(background((w * h * 3) as nat), w, h, es, ls, f, px_scale(f, max_dim));
}

/// `max_dim / D` rounded is at most `(max_dim + 1) / D`: `D * s <= max_dim + 1`
/// with `s` read as `s.m * 2^s.e`.
proof fn lemma_scale_le(m: nat, d: nat)
    requires
        1 <= m < 0x1_0000_0000,
        1 <= d < 0x2_0000_0000,
    ensures
        ({
            let s = fdiv(fint(m as int), fint(d as int)).mag;
            &&& s.wf()
            &&& -0x100 <= s.e < 0
            &&& d * s.m <= (m + 1) * p2((-s.e) as nat)
        }),
{
    lemma_p2_consts();
    assert(p2(16) == 0x1_0000) by {
        reveal_with_fuel(p2, 17);
    }
    lemma_p2_add(16, 16);
    lemma_p2_add(32, 1);
    assert(p2(1) == 2) by {
        reveal_with_fuel(p2, 2);
    }
    lemma_blen_le(m, 32);
    lemma_blen_le(d, 33);
    lemma_int_exact(m);
    lemma_int_exact(d);
    let ka = (53 - blen(m)) as nat;
    let kb = (53 - blen(d)) as nat;
    let pa = p2(ka);
    let pb = p2(kb);
    let a = round_bits(m, 0);
    let b = round_bits(d, 0);
    assert(fint(m as int).mag == a);
    assert(fint(d as int).mag == b);
    let am = a.m as nat;
    let bm = b.m as nat;
    assert(am == m * pa && bm == d * pb);
    assert(p2(53) == 2 * p2(52));
    lemma_blen_unique(am, 53);
    lemma_blen_unique(bm, 53);
    let j: nat = if am * p2(52) >= P52 * bm {
        52
    } else {
        53
    };
    let pj = p2(j);
    assert(am * p2(52) >= P52 * bm <==> am >= bm) by (nonlinear_arith)
        requires
            p2(52) == P52,
            P52 > 0,
    ;
    if j == 52 {
        assert(P52 * bm <= am * pj < P53 * bm) by (nonlinear_arith)
            requires
                pj == P52,
                P53 == 2 * P52,
                bm <= am,
                am < P53,
                bm >= P52,
        ;
    } else {
        assert(P52 * bm <= am * pj < P53 * bm) by (nonlinear_arith)
            requires
                pj == P53,
                P53 == 2 * P52,
                am < bm,
                am >= P52,
                bm < P53,
        ;
    }
    let t = (am * pj) as nat;
    lemma_div_range(t, bm, P52 as nat, P53 as nat);
    let q = t / bm;
    let r = t % bm;
    let q2 = if rne_up(q, r, bm) {
        q + 1
    } else {
        q
    };
    assert(round_div(am, bm) == crate::binary64::pack(q2, -j));
    // bm < pa * pj, so bm * q2 <= (m + 1) * pa * pj
    assert(bm * q2 <= (m + 1) * pa * pj) by (nonlinear_arith)
        requires
            t == q * bm + r,
            0 <= r < bm,
            q >= P52,
            q2 <= q + 1,
            t == am * pj,
            am == m * pa,
            m < P52,
            bm >= 1,
    ;
    let jj = (j + ka - kb) as nat;
    lemma_p2_add(j, ka);
    lemma_p2_add(jj, kb);
    assert(jj + kb == j + ka);
    assert(p2(j + ka) == pj * pa);
    lemma_p2_pos(kb);
    assert(d * q2 <= (m + 1) * p2(jj)) by (nonlinear_arith)
        requires
            bm * q2 <= (m + 1) * pa * pj,
            bm == d * pb,
            p2(jj) * pb == pj * pa,
            pb >= 1,
    ;
    let s = fdiv(fint(m as int), fint(d as int)).mag;
    assert(s == crate::sfloat::div_spec(a, b));
    if q2 == P53 {
        lemma_p2_add((jj - 1) as nat, 1);
        assert(jj >= 1);
        assert(p2(jj) == p2((jj - 1) as nat) * 2);
        assert(d * P52 <= (m + 1) * p2((jj - 1) as nat)) by (nonlinear_arith)
            requires
                d * P53 <= (m + 1) * p2(jj),
                p2(jj) == p2((jj - 1) as nat) * 2,
                P53 == 2 * P52,
        ;
    }
}

/// An amount of at most `D` units scaled by `max_dim / D` is not negative
/// and at most `max_dim + 1`.
proof fn lemma_scaled_le(amount: nat, d: nat, m: nat)
    requires
        amount <= d < 0x2_0000_0000,
        1 <= d,
        m < 0x1_0000_0000,
    ensures
        !fmul(fint(amount as int), fdiv(fint(m as int), fint(d as int))).neg,
        val_le(fmul(fint(amount as int), fdiv(fint(m as int), fint(d as int))).mag, m + 1),
{
    let sc = fdiv(fint(m as int), fint(d as int));
    let x = fint(amount as int);
    let t = fmul(x, sc);
    lemma_p2_consts();
    assert(p2(0) == 1);
    if m == 0 || amount == 0 {
        assert(round_bits(0, 0).is_zero());
        assert(sc.mag.is_zero() || x.mag.is_zero());
        assert(x.mag.m * sc.mag.m == 0) by (nonlinear_arith)
            requires
                x.mag.m == 0 || sc.mag.m == 0,
        ;
        assert(t.mag == round_bits(0, x.mag.e + sc.mag.e));
        assert(t.mag.is_zero());
        assert(0 * p2(0) == 0);
    } else {
        lemma_scale_le(m, d);
        let s = sc.mag;
        lemma_int_exact(amount);
        let kw = (53 - blen(amount)) as nat;
        let pw = p2(kw);
        assert(x.mag.m == amount * pw && x.mag.e == -kw);
        let jj = (-s.e) as nat;
        let n = (amount * pw * s.m) as nat;
        let e = -kw + s.e;
        lemma_p2_add(kw, jj);
        assert((-e) as nat == kw + jj);
        assert(n <= (m + 1) * p2((-e) as nat)) by (nonlinear_arith)
            requires
                d * s.m <= (m + 1) * p2(jj),
                amount <= d,
                n == amount * pw * s.m,
                p2(kw + jj) == pw * p2(jj),
                (-e) as nat == kw + jj,
        ;
        assert(n < P120) by (nonlinear_arith)
            requires
                amount * pw < P53,
                s.m < P53,
                n == amount * pw * s.m,
                P53 == 0x20_0000_0000_0000,
                P120 == 0x100_0000_0000_0000_0000_0000_0000_0000,
        ;
        assert(n > 0) by (nonlinear_arith)
            requires
                amount * pw >= P52,
                s.m >= P52,
                n == amount * pw * s.m,
                P52 > 0,
        ;
        assert(t.mag == round_bits(n, e));
        crate::binary64::lemma_p2_le(120, 0x800);
        lemma_round_le(n, e, m + 1);
    }
}

/// The thumbnail is fitted into the `max_dim`-pixel square whatever the cell
/// holds: each side has at least one and at most `max_dim` pixels (one when
/// `max_dim` is 0).  Up to `max_dim = 37837` its bytes always fit a `u32`
/// count.
pub proof fn lemma_thumbnail_bounded(f: Rect, max_dim: u32)
    ensures
        1 <= png_w(f, max_dim) <= side_cap(max_dim),
        1 <= png_h(f, max_dim) <= side_cap(max_dim),
        max_dim >= 1 ==> png_w(f, max_dim) <= max_dim && png_h(f, max_dim) <= max_dim,
        max_dim <= 37837 ==> png_w(f, max_dim) * png_h(f, max_dim) * 3 <= u32::MAX,
{
    let w = png_w(f, max_dim);
    let h = png_h(f, max_dim);
    if max_dim <= 37837 {
        assert(w * h * 3 <= u32::MAX) by (nonlinear_arith)
            requires
                1 <= w <= 37837,
                1 <= h <= 37837,
        ;
    }
}

/// Every vertex of drawn geometry lands in the picture's square, up to the
/// rounding of the scale: both pixel coordinates lie between `0` and
/// `max_dim + 1`.
pub proof fn lemma_vertices_fit(
    es: Seq<Element>,
    layers: Option<&[i16]>,
    max_dim: u32,
    k: int,
    i: int,
)
    requires
        0 <= k < es.len(),
        drawn(es[k], layers),
        0 <= i < es[k].points().len(),
    ensures
        ({
            let f = png_frame(es, layers);
            let q = px_of(f, px_scale(f, max_dim), es[k].points()[i]);
            &&& !q.0.neg && val_le(q.0.mag, (max_dim + 1) as nat)
            &&& !q.1.neg && val_le(q.1.mag, (max_dim + 1) as nat)
        }),
{
    let f = png_frame(es, layers);
    let p = es[k].points()[i];
    lemma_frame_holds_shape(es, layers, seq![], k, i);
    assert(mark_points(seq![]) == Seq::<(i32, i32)>::empty());
    assert(drawn_points(es, layers) + mark_points(seq![]) =~= drawn_points(es, layers));
    assert(frame(es, layers, seq![]) == f);
    let d = if span_w(f) >= span_h(f) {
        span_w(f)
    } else {
        span_h(f)
    };
    lemma_scaled_le((p.0 - f.x0) as nat, d as nat, max_dim as nat);
    lemma_scaled_le((f.y1 - p.1) as nat, d as nat, max_dim as nat);
}

/// Y is flipped so up is up: the frame's top edge (`y1`) lands on pixel
/// row 0, and its bottom edge (`y0`) rounds up to the image's height.
pub proof fn lemma_y_flipped(f: Rect, max_dim: u32, x: i32)
    ensures
        px_of(f, px_scale(f, max_dim), (x, f.y1)).1.mag.is_zero(),
        f.y1 - f.y0 >= 1 ==> clamp(
            to_int(px_of(f, px_scale(f, max_dim), (x, f.y0)).1, Rnd::Ceil),
            1,
            side_cap(max_dim),
        ) == png_h(f, max_dim),
{
    let sc = px_scale(f, max_dim);
    assert(round_bits(0, 0).m == 0);
    let z = fint(0);
    assert(z.mag.m == 0);
    assert(z.mag.m * sc.mag.m == 0);
    assert(fmul(z, sc).mag == round_bits(0, z.mag.e + sc.mag.e));
}

/// Y is flipped so up is up: of two points of the frame on one vertical,
/// the higher one never lands lower in the picture.
pub proof fn lemma_up_is_up_png(f: Rect, max_dim: u32, x: i32, ya: i32, yb: i32)
    requires
        ya <= yb <= f.y1,
    ensures
        fle(
            px_of(f, px_scale(f, max_dim), (x, yb)).1,
            px_of(f, px_scale(f, max_dim), (x, ya)).1,
        ),
{
    let sc = px_scale(f, max_dim);
    let sm = sc.mag;
    let d = if span_w(f) >= span_h(f) {
        span_w(f)
    } else {
        span_h(f)
    };
    if max_dim == 0 {
        assert(round_bits(0, 0).m == 0);
        assert(sm == Dbl { m: 0, e: 0 });
    } else {
        lemma_scale_le(max_dim as nat, d as nat);
    }
    assert(!sc.neg);
    let na = (f.y1 - ya) as nat;
    let nb = (f.y1 - yb) as nat;
    lemma_p2_consts();
    lemma_mul_int(na, sm);
    lemma_mul_int(nb, sm);
    assert(nb * sm.m <= na * sm.m) by (nonlinear_arith)
        requires
            nb <= na,
    ;
    lemma_p2_le(120, 0x400);
    assert(na * sm.m < P120) by (nonlinear_arith)
        requires
            na < 0x2_0000_0000,
            sm.m < P53,
            P53 == 0x20_0000_0000_0000,
            P120 == 0x100_0000_0000_0000_0000_0000_0000_0000,
    ;
    lemma_round_mono((nb * sm.m) as nat, (na * sm.m) as nat, sm.e as int);
    assert(fint(na as int).mag == round_bits(na, 0) && !fint(na as int).neg);
    assert(fint(nb as int).mag == round_bits(nb, 0) && !fint(nb as int).neg);
}

/// A lowercase hexadecimal digit.
pub open spec fn hex_digit(v: int) -> char {
    if v < 10 {
        (v + 48) as char
    } else {
        (v + 87) as char
    }
}

/// `format!("{:02x}", b)`.
pub open spec fn hex_byte(b: u8) -> Seq<char> {
    seq![hex_digit(b as int / 16), hex_digit(b as int % 16)]
}

/// `format!("#{:02x}{:02x}{:02x}", r, g, b)`.
pub open spec fn rgb_hex(c: (u8, u8, u8)) -> Seq<char> {
    seq!['#'] + hex_byte(c.0) + hex_byte(c.1) + hex_byte(c.2)
}

proof fn lemma_palette_entry(i: int)
    requires
        0 <= i < 14,
    ensures
        rgb_hex(rgb_at(i)) == palette(i)@,
{
    reveal_strlit("#4e79a7");
    reveal_strlit("#f28e2b");
    reveal_strlit("#59a14f");
    reveal_strlit("#e15759");
    reveal_strlit("#b07aa1");
    reveal_strlit("#76b7b2");
    reveal_strlit("#edc948");
    reveal_strlit("#ff9da7");
    reveal_strlit("#9c755f");
    reveal_strlit("#bab0ac");
    reveal_strlit("#1b9e77");
    reveal_strlit("#d95f02");
    reveal_strlit("#7570b3");
    reveal_strlit("#e7298a");
    assert(rgb_hex(rgb_at(i)) =~= palette(i)@);
}

/// The raster's colours are the SVG palette's: every layer's RGB triple,
/// written `#rrggbb`, is the SVG colour of that layer.
pub proof fn lemma_rgb_is_palette(layer: i16)
    ensures
        rgb_hex(rgb(layer)) == palette(palette_index(layer))@,
{
    lemma_palette_entry(palette_index(layer));
}


/// The value of a lowercase hexadecimal digit.
pub open spec fn hex_val(c: char) -> int {
    if '0' <= c && c <= '9' {
        c as int - 48
    } else {
        c as int - 87
    }
}

proof fn lemma_hex_digit_back(v: int)
    requires
        0 <= v < 16,
    ensures
        hex_val(hex_digit(v)) == v,
{
}

/// Two triples written `#rrggbb` alike are the same triple.
proof fn lemma_rgb_hex_injective(c1: (u8, u8, u8), c2: (u8, u8, u8))
    requires
        rgb_hex(c1) == rgb_hex(c2),
    ensures
        c1 == c2,
{
    let h1 = rgb_hex(c1);
    let h2 = rgb_hex(c2);
    assert(h1[1] == hex_digit(c1.0 as int / 16) && h1[2] == hex_digit(c1.0 as int % 16));
    assert(h1[3] == hex_digit(c1.1 as int / 16) && h1[4] == hex_digit(c1.1 as int % 16));
    assert(h1[5] == hex_digit(c1.2 as int / 16) && h1[6] == hex_digit(c1.2 as int % 16));
    assert(h2[1] == hex_digit(c2.0 as int / 16) && h2[2] == hex_digit(c2.0 as int % 16));
    assert(h2[3] == hex_digit(c2.1 as int / 16) && h2[4] == hex_digit(c2.1 as int % 16));
    assert(h2[5] == hex_digit(c2.2 as int / 16) && h2[6] == hex_digit(c2.2 as int % 16));
    lemma_hex_digit_back(c1.0 as int / 16);
    lemma_hex_digit_back(c1.0 as int % 16);
    lemma_hex_digit_back(c1.1 as int / 16);
    lemma_hex_digit_back(c1.1 as int % 16);
    lemma_hex_digit_back(c1.2 as int / 16);
    lemma_hex_digit_back(c1.2 as int % 16);
    lemma_hex_digit_back(c2.0 as int / 16);
    lemma_hex_digit_back(c2.0 as int % 16);
    lemma_hex_digit_back(c2.1 as int / 16);
    lemma_hex_digit_back(c2.1 as int % 16);
    lemma_hex_digit_back(c2.2 as int / 16);
    lemma_hex_digit_back(c2.2 as int % 16);
}

/// The fourteen palette entries are all different.
proof fn lemma_rgb_at_distinct(i: int, j: int)
    requires
        0 <= i < 14,
        0 <= j < 14,
        i != j,
    ensures
        rgb_at(i) != rgb_at(j),
{
}

/// The palette holds fourteen different colours: two layers whose palette
/// indices (layer mod 14) differ get different colours, as RGB in the PNG
/// and as `#rrggbb` in the SVG alike.
pub proof fn lemma_palette_distinct(l1: i16, l2: i16)
    requires
        palette_index(l1) != palette_index(l2),
    ensures
        rgb(l1) != rgb(l2),
        palette(palette_index(l1))@ != palette(palette_index(l2))@,
{
    let i = palette_index(l1);
    let j = palette_index(l2);
    lemma_rgb_at_distinct(i, j);
    lemma_palette_entry(i);
    lemma_palette_entry(j);
    if palette(i)@ == palette(j)@ {
        lemma_rgb_hex_injective(rgb_at(i), rgb_at(j));
    }
}


/// Values in nondecreasing order.
pub open spec fn ascending(s: Seq<Float>) -> bool {
    forall|i: int, j: int| 0 <= i < j < s.len() ==> fle(#[trigger] s[i], #[trigger] s[j])
}

/// Well-formed values.
pub open spec fn all_wf(s: Seq<Float>) -> bool {
    forall|i: int| 0 <= i < s.len() ==> (#[trigger] s[i]).wf()
}

proof fn lemma_fle_total(x: Float, y: Float)
    ensures
        fle(x, y) || fle(y, x),
{
    crate::binary64::lemma_le_total(x.mag, y.mag);
}

/// Inserting into an ordered sequence keeps it ordered, and adds exactly
/// the one value.
proof fn lemma_insert_sorted_props(s: Seq<Float>, x: Float)
    requires
        all_wf(s),
        x.wf(),
        ascending(s),
    ensures
        ascending(insert_sorted(s, x)),
        all_wf(insert_sorted(s, x)),
        insert_sorted(s, x).to_multiset() == s.to_multiset().insert(x),
        insert_sorted(s, x).len() == s.len() + 1,
        forall|i: int|
            0 <= i < insert_sorted(s, x).len() ==> #[trigger] insert_sorted(s, x)[i] == x || exists|
                j: int,
            |
                0 <= j < s.len() && insert_sorted(s, x)[i] == #[trigger] s[j],
    decreases s.len(),
{
    broadcast use vstd::seq_lib::to_multiset_build;

    let r = insert_sorted(s, x);
    if s.len() == 0 {
        assert(r =~= s.push(x));
    } else if fle(s.last(), x) {
        assert(r == s.push(x));
        assert forall|i: int, j: int| 0 <= i < j < r.len() implies fle(#[trigger] r[i], #[trigger] r[j]) by {
            if j == s.len() {
                if i < s.len() - 1 {
                    assert(fle(s[i], s[s.len() - 1]));
                    crate::sfloat::lemma_fle_trans(s[i], s.last(), x);
                }
            }
        }
        assert forall|i: int| 0 <= i < r.len() implies #[trigger] r[i] == x || exists|j: int|
            0 <= j < s.len() && r[i] == #[trigger] s[j] by {
            if i < s.len() {
                assert(r[i] == s[i]);
            }
        }
    } else {
        let sl = s.drop_last();
        let l = s.last();
        assert forall|i: int, j: int| 0 <= i < j < sl.len() implies fle(#[trigger] sl[i], #[trigger] sl[j]) by {
            assert(sl[i] == s[i] && sl[j] == s[j]);
        }
        assert(all_wf(sl)) by {
            assert forall|i: int| 0 <= i < sl.len() implies (#[trigger] sl[i]).wf() by {
                assert(sl[i] == s[i]);
            }
        }
        lemma_insert_sorted_props(sl, x);
        let q = insert_sorted(sl, x);
        assert(r == q.push(l));
        lemma_fle_total(l, x);
        assert forall|i: int| 0 <= i < q.len() implies fle(#[trigger] q[i], l) by {
            if q[i] == x {
            } else {
                let j = choose|j: int| 0 <= j < sl.len() && q[i] == #[trigger] sl[j];
                assert(sl[j] == s[j]);
                assert(fle(s[j], s[s.len() - 1]));
            }
        }
        assert forall|i: int, j: int| 0 <= i < j < r.len() implies fle(#[trigger] r[i], #[trigger] r[j]) by {
            if j == q.len() {
                assert(r[i] == q[i]);
            } else {
                assert(r[i] == q[i] && r[j] == q[j]);
            }
        }
        assert forall|i: int| 0 <= i < r.len() implies #[trigger] r[i] == x || exists|j: int|
            0 <= j < s.len() && r[i] == #[trigger] s[j] by {
            if i < q.len() {
                assert(r[i] == q[i]);
                if q[i] != x {
                    let j = choose|j: int| 0 <= j < sl.len() && q[i] == #[trigger] sl[j];
                    assert(sl[j] == s[j]);
                }
            } else {
                assert(r[i] == s[s.len() - 1]);
            }
        }
        assert(s == sl.push(l));
        assert(r.to_multiset() =~= s.to_multiset().insert(x));
    }
}

/// The crossings of a row come out in order: `sorted` puts any
/// well-formed values into nondecreasing order, keeping each value as many
/// times as it occurs.
pub proof fn lemma_sorted_orders(xs: Seq<Float>)
    requires
        all_wf(xs),
    ensures
        ascending(sorted(xs)),
        sorted(xs).to_multiset() == xs.to_multiset(),
        all_wf(sorted(xs)),
    decreases xs.len(),
{
    broadcast use vstd::seq_lib::to_multiset_build;

    if xs.len() == 0 {
    } else {
        let p = xs.drop_last();
        assert(all_wf(p)) by {
            assert forall|i: int| 0 <= i < p.len() implies (#[trigger] p[i]).wf() by {
                assert(p[i] == xs[i]);
            }
        }
        lemma_sorted_orders(p);
        lemma_insert_sorted_props(sorted(p), xs.last());
        assert(xs == p.push(xs.last()));
    }
}

} // verus!
