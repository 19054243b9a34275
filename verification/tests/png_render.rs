use vyges_gds_view::gds::{Cell, Element};
use vyges_gds_view::geom::Rect;
use vyges_gds_view::binary64::Dbl;
use vyges_gds_view::raster::{blend_exec, fill_alpha_exec, fill_poly_exec, one_exec, path_alpha_exec};
use vyges_gds_view::sfloat::{fsub_exec, Float};
use vyges_gds_view::png::{encode_rgb, png_size, render_png, render_png_window, window_size};

// A plain `f64` rasterizer, written the obvious way, to hold the verified
// integer-exact one against.

const RGB: [(u8, u8, u8); 14] = [
    (78, 121, 167), (242, 142, 43), (89, 161, 79), (225, 87, 89), (176, 122, 161),
    (118, 183, 178), (237, 201, 72), (255, 157, 167), (156, 117, 95), (186, 176, 172),
    (27, 158, 119), (217, 95, 2), (117, 112, 179), (231, 41, 138),
];

fn shade(dst: u8, src: u8, a: f64) -> u8 {
    (dst as f64 * (1.0 - a) + src as f64 * a).round().clamp(0.0, 255.0) as u8
}

fn fill_f64(buf: &mut [u8], w: u32, h: u32, poly: &[(f64, f64)], col: (u8, u8, u8), a: f64) {
    if poly.len() < 3 {
        return;
    }
    let (mut lo, mut hi) = (f64::MAX, f64::MIN);
    for &(_, y) in poly {
        lo = lo.min(y);
        hi = hi.max(y);
    }
    let ya = lo.floor().max(0.0) as i32;
    let yb = hi.ceil().min(h as f64) as i32;
    let n = poly.len();
    for py in ya..yb {
        let yc = py as f64 + 0.5;
        let mut xs: Vec<f64> = Vec::new();
        for i in 0..n {
            let (ax, ay) = poly[i];
            let (bx, by) = poly[(i + 1) % n];
            if (ay <= yc && by > yc) || (by <= yc && ay > yc) {
                xs.push(ax + (yc - ay) / (by - ay) * (bx - ax));
            }
        }
        xs.sort_by(|p, q| p.partial_cmp(q).unwrap());
        let mut i = 0;
        while i + 1 < xs.len() {
            let xa = xs[i].round().max(0.0) as i32;
            let xb = xs[i + 1].round().min(w as f64) as i32;
            for px in xa..xb {
                let k = ((py as u32 * w + px as u32) * 3) as usize;
                buf[k] = shade(buf[k], col.0, a);
                buf[k + 1] = shade(buf[k + 1], col.1, a);
                buf[k + 2] = shade(buf[k + 2], col.2, a);
            }
            i += 2;
        }
    }
}

fn raster_f64(cell: &Cell, layers: Option<&[i16]>, max_dim: u32) -> (Vec<u8>, u32, u32) {
    raster_f64_in(cell, layers, max_dim, None)
}

fn raster_f64_in(cell: &Cell, layers: Option<&[i16]>, max_dim: u32, window: Option<Rect>) -> (Vec<u8>, u32, u32) {
    let keep = |l: i16| layers.map(|ls| ls.contains(&l)).unwrap_or(true);
    let col = |l: i16| RGB[(l as usize).wrapping_rem(14)];
    let mut all: Vec<(i32, i32)> = Vec::new();
    for e in &cell.elements {
        match e {
            Element::Boundary { layer, pts, .. }
            | Element::Path { layer, pts, .. }
            | Element::Box { layer, pts, .. } if keep(*layer) => all.extend_from_slice(pts),
            _ => {}
        }
    }
    let (x0, y0, x1, y1) = if let Some(r) = window {
        (r.x0 as f64, r.y0 as f64, r.x1 as f64, r.y1 as f64)
    } else if all.is_empty() {
        (0.0, 0.0, 1.0, 1.0)
    } else {
        let xs = all.iter().map(|p| p.0);
        let ys = all.iter().map(|p| p.1);
        (
            xs.clone().min().unwrap() as f64,
            ys.clone().min().unwrap() as f64,
            xs.max().unwrap() as f64,
            ys.max().unwrap() as f64,
        )
    };
    let (dw, dh) = ((x1 - x0).max(1.0), (y1 - y0).max(1.0));
    let s = (max_dim as f64) / dw.max(dh);
    // fitted into the max_dim-pixel square
    let cap = max_dim.max(1);
    let w = ((dw * s).ceil() as u32).clamp(1, cap);
    let h = ((dh * s).ceil() as u32).clamp(1, cap);
    let map = |x: f64, y: f64| ((x - x0) * s, (y1 - y) * s);
    let mut buf = vec![250u8; (w * h * 3) as usize];
    for e in &cell.elements {
        match e {
            Element::Boundary { layer, pts, .. } | Element::Box { layer, pts, .. } if keep(*layer) => {
                let poly: Vec<(f64, f64)> = pts.iter().map(|&(x, y)| map(x as f64, y as f64)).collect();
                fill_f64(&mut buf, w, h, &poly, col(*layer), 0.45);
            }
            Element::Path { layer, pts, width, .. } if keep(*layer) => {
                let hw = ((*width as f64 * s) / 2.0).max(0.5);
                let px: Vec<(f64, f64)> = pts.iter().map(|&(x, y)| map(x as f64, y as f64)).collect();
                for seg in px.windows(2) {
                    let (ax, ay) = seg[0];
                    let (bx, by) = seg[1];
                    let (dx, dy) = (bx - ax, by - ay);
                    let len = (dx * dx + dy * dy).sqrt().max(1e-6);
                    let (nx, ny) = (-dy / len * hw, dx / len * hw);
                    let quad = [(ax + nx, ay + ny), (bx + nx, by + ny), (bx - nx, by - ny), (ax - nx, ay - ny)];
                    fill_f64(&mut buf, w, h, &quad, col(*layer), 0.55);
                }
            }
            _ => {}
        }
    }
    (buf, w, h)
}

fn same_as_f64(cell: &Cell, layers: Option<&[i16]>, max_dim: u32) {
    let (buf, w, h) = raster_f64(cell, layers, max_dim);
    assert_eq!(png_size(cell, layers, max_dim), (w, h));
    assert_eq!(render_png(cell, layers, max_dim), encode_rgb(&buf, w, h));
}

fn boundary(layer: i16, pts: Vec<(i32, i32)>) -> Element {
    Element::Boundary { layer, datatype: 0, pts }
}

fn path(layer: i16, width: i32, pts: Vec<(i32, i32)>) -> Element {
    Element::Path { layer, datatype: 0, width, pts }
}

fn cell(elements: Vec<Element>) -> Cell {
    Cell { name: String::from("t"), elements }
}

#[test]
fn emits_a_valid_png_signature_and_iend() {
    let cell = Cell {
        elements: vec![Element::Boundary { layer: 66, datatype: 0, pts: Rect::new(0, 0, 100, 80).as_boundary() }],
        ..Default::default()
    };
    let png = render_png(&cell, None, 64);
    assert_eq!(&png[..8], &[137, 80, 78, 71, 13, 10, 26, 10]); // PNG magic
    assert!(png.windows(4).any(|w| w == b"IHDR"));
    assert!(png.windows(4).any(|w| w == b"IDAT"));
    assert_eq!(&png[png.len() - 8..png.len() - 4], b"IEND");
}

#[test]
fn the_longer_side_gets_max_dim_pixels() {
    let c = cell(vec![boundary(66, Rect::new(0, 0, 100, 80).as_boundary())]);
    assert_eq!(png_size(&c, None, 64), (64, 52));
    let png = render_png(&c, None, 64);
    assert_eq!(&png[16..24], &[0, 0, 0, 64, 0, 0, 0, 52]);
}

#[test]
fn an_empty_cell_is_a_one_unit_background() {
    let c = cell(vec![]);
    assert_eq!(png_size(&c, None, 10), (10, 10));
    let (buf, w, h) = raster_f64(&c, None, 10);
    assert!(buf.iter().all(|&b| b == 250));
    assert_eq!(render_png(&c, None, 10), encode_rgb(&buf, w, h));
}

#[test]
fn a_zero_max_dim_still_gives_one_pixel() {
    let c = cell(vec![boundary(1, Rect::new(0, 0, 10, 10).as_boundary())]);
    assert_eq!(png_size(&c, None, 0), (1, 1));
    same_as_f64(&c, None, 0);
}

#[test]
fn a_full_rectangle_is_blended_once() {
    // 0.45 of layer 66's colour over #fafafa, every pixel.
    let c = cell(vec![boundary(66, Rect::new(0, 0, 8, 8).as_boundary())]);
    let (buf, _, _) = raster_f64(&c, None, 8);
    let col = RGB[66 % 14];
    assert_eq!(&buf[..3], &[shade(250, col.0, 0.45), shade(250, col.1, 0.45), shade(250, col.2, 0.45)]);
    same_as_f64(&c, None, 8);
}

#[test]
fn rectangles_and_overlaps_match_f64() {
    let c = cell(vec![
        boundary(66, Rect::new(0, 0, 100, 80).as_boundary()),
        boundary(68, Rect::new(30, 20, 140, 60).as_boundary()),
        Element::Box { layer: 3, datatype: 0, pts: Rect::new(-40, -10, 10, 5).as_boundary() },
        Element::Text { layer: 66, texttype: 0, xy: (500, 500), string: String::from("far away") },
    ]);
    same_as_f64(&c, None, 64);
    same_as_f64(&c, None, 37);
    same_as_f64(&c, Some(&[68]), 50);
}

#[test]
fn triangles_and_odd_polygons_match_f64() {
    let c = cell(vec![
        boundary(5, vec![(0, 0), (97, 13), (41, 77), (0, 0)]),
        boundary(6, vec![(10, 10), (90, 10), (10, 60), (90, 60), (10, 10)]),
        boundary(7, vec![(5, 5), (6, 6)]),
    ]);
    same_as_f64(&c, None, 61);
    same_as_f64(&c, None, 128);
}

#[test]
fn paths_match_f64() {
    let c = cell(vec![
        path(10, 20, vec![(0, 0), (100, 0), (100, 50), (37, 91)]),
        path(11, -4, vec![(10, 90), (90, 10)]),
        path(12, 0, vec![(50, 50), (50, 50), (60, 55)]),
        path(13, 3, vec![(5, 5)]),
    ]);
    same_as_f64(&c, None, 64);
    same_as_f64(&c, None, 200);
}

#[test]
fn negative_and_large_coordinates_match_f64() {
    let c = cell(vec![
        boundary(-3, vec![(-2_000_000_000, -5), (2_000_000_000, -5), (0, 1_900_000_000), (-2_000_000_000, -5)]),
        path(-32768, 400_000_000, vec![(-1_000_000_000, 0), (1_000_000_000, 7)]),
    ]);
    same_as_f64(&c, None, 48);
}

#[test]
fn negative_layers_wrap_into_the_palette() {
    let c = cell(vec![boundary(-1, Rect::new(0, 0, 4, 4).as_boundary())]);
    let (buf, _, _) = raster_f64(&c, None, 4);
    let col = RGB[((-1i16) as usize).wrapping_rem(14)];
    assert_eq!(buf[0], shade(250, col.0, 0.45));
    same_as_f64(&c, None, 4);
}

#[test]
fn a_window_frames_only_its_region() {
    let c = cell(vec![
        boundary(66, Rect::new(0, 0, 400, 80).as_boundary()),
        boundary(68, Rect::new(120, 0, 200, 240).as_boundary()),
        path(70, 20, vec![(40, 40), (360, 40), (360, 200)]),
    ]);
    let win = Rect::new(100, 20, 220, 60);
    assert_eq!(window_size(win, 90), (90, 30));
    let (buf, w, h) = raster_f64_in(&c, None, 90, Some(win));
    assert_eq!((w, h), (90, 30));
    assert_eq!(render_png_window(&c, None, 90, win), encode_rgb(&buf, w, h));
    let (buf, w, h) = raster_f64_in(&c, Some(&[70]), 33, Some(Rect::new(-50, -50, 10, 300)));
    assert_eq!(render_png_window(&c, Some(&[70]), 33, Rect::new(-50, -50, 10, 300)), encode_rgb(&buf, w, h));
}

#[test]
fn the_whole_drawing_is_the_default_window() {
    let c = cell(vec![boundary(66, Rect::new(10, 20, 110, 70).as_boundary())]);
    assert_eq!(render_png_window(&c, None, 40, Rect::new(10, 20, 110, 70)), render_png(&c, None, 40));
}

#[test]
fn the_longer_side_never_exceeds_max_dim() {
    // 3 / 187 rounds up, and 187 times it rounds past 3: still three pixels.
    let c = cell(vec![boundary(1, Rect::new(0, 0, 187, 1).as_boundary())]);
    assert_eq!(png_size(&c, None, 3), (3, 1));
    same_as_f64(&c, None, 3);
    let c = cell(vec![boundary(1, Rect::new(0, 0, 77, 5).as_boundary())]);
    assert_eq!(png_size(&c, None, 700).0, 700);
    same_as_f64(&c, None, 700);
}

#[test]
fn a_layer_filter_is_the_same_as_dropping_the_other_layers() {
    let all = cell(vec![
        boundary(66, Rect::new(0, 0, 100, 80).as_boundary()),
        boundary(68, Rect::new(30, 20, 140, 60).as_boundary()),
        path(66, 10, vec![(0, 0), (100, 80)]),
    ]);
    let kept = cell(vec![
        boundary(66, Rect::new(0, 0, 100, 80).as_boundary()),
        path(66, 10, vec![(0, 0), (100, 80)]),
    ]);
    assert_eq!(render_png(&all, Some(&[66]), 50), render_png(&kept, None, 50));
}

#[test]
fn blending_moves_toward_the_colour_and_never_past_it() {
    for (a, af) in [(fill_alpha_exec(), 0.45), (path_alpha_exec(), 0.55)] {
        let oma = fsub_exec(one_exec(), a);
        for d in 0..=255u8 {
            for s in 0..=255u8 {
                let b = blend_exec(d, s, a, oma);
                assert_eq!(b, shade(d, s, af));
                assert!(d.min(s) <= b && b <= d.max(s));
            }
        }
    }
}

/// An `f64` as a sign and a 53-bit significand times a power of two.
fn to_float(x: f64) -> Float {
    if x == 0.0 {
        return Float { neg: false, mag: Dbl { m: 0, e: 0 } };
    }
    let bits = x.to_bits();
    let neg = bits >> 63 == 1;
    let exp = ((bits >> 52) & 0x7ff) as i64;
    let frac = bits & ((1u64 << 52) - 1);
    let (mut m, mut e) = if exp == 0 { (frac, -1074i64) } else { (frac | (1u64 << 52), exp - 1075) };
    while m < (1u64 << 52) {
        m <<= 1;
        e -= 1;
    }
    Float { neg, mag: Dbl { m, e } }
}

const OPACITIES: [f64; 12] = [
    0.0, 1.0, 0.5, 0.45, 0.001, 1.0 / 3.0, 0.999_999_9, 1.0 - f64::EPSILON / 2.0,
    9.5367431640625e-7, 1e-20, 1e-300, 5e-324,
];

#[test]
fn blending_with_any_opacity_matches_f64() {
    for af in OPACITIES {
        let a = to_float(af);
        let oma = fsub_exec(one_exec(), a);
        for d in (0..=255u8).step_by(3) {
            for s in 0..=255u8 {
                let b = blend_exec(d, s, a, oma);
                assert_eq!(b, shade(d, s, af), "opacity {af}, {d} toward {s}");
                assert!(d.min(s) <= b && b <= d.max(s));
                let exact = d as f64 * (1.0 - af) + s as f64 * af;
                assert!((b as f64 - exact).abs() <= 0.5 + 1e-9);
            }
        }
    }
}

#[test]
fn opacity_zero_keeps_and_one_replaces() {
    let zero = to_float(0.0);
    let one = one_exec();
    for d in 0..=255u8 {
        for s in [0u8, 1, 127, 200, 255] {
            assert_eq!(blend_exec(d, s, zero, fsub_exec(one_exec(), zero)), d);
            assert_eq!(blend_exec(d, s, one, fsub_exec(one_exec(), one)), s);
        }
    }
}

#[test]
fn a_fill_with_any_opacity_matches_f64_and_stays_in_its_rows() {
    let (w, h) = (23u32, 17u32);
    let poly_f = [(2.5, 3.25), (20.0, 1.0), (17.75, 12.5), (4.0, 15.5), (11.0, 8.0)];
    let poly: Vec<(Float, Float)> = poly_f.iter().map(|&(x, y)| (to_float(x), to_float(y))).collect();
    let col = (231, 41, 138);
    for af in OPACITIES {
        let start: Vec<u8> = (0..w * h * 3).map(|i| (i * 37 % 256) as u8).collect();
        let mut want = start.clone();
        fill_f64(&mut want, w, h, &poly_f, col, af);
        let mut got = start.clone();
        fill_poly_exec(&mut got, w, h, &poly, col, to_float(af));
        assert_eq!(got, want, "opacity {af}");
        for (i, (&o, &n)) in start.iter().zip(got.iter()).enumerate() {
            let c = [col.0, col.1, col.2][i % 3];
            assert!(o.min(c) <= n && n <= o.max(c));
            let row = i as u32 / (w * 3);
            if row < 1 || row >= 16 {
                assert_eq!(n, o, "row {row} is outside the polygon's rows");
            }
        }
    }
}
