use vyges_gds_view::summary::view_summary;
use vyges_gds_view::gds::{Cell, Element};
use vyges_gds_view::geom::Rect;
use vyges_gds_view::svg::{color, render, Mark};
use vyges_gds_view::raster::rgb_exec;
use vyges_gds_view::text::push_esc;

fn cell() -> Cell {
    Cell {
        name: "top".into(),
        elements: vec![
            Element::Boundary { layer: 66, datatype: 0, pts: Rect::new(0, 0, 100, 50).as_boundary() },
            Element::Boundary { layer: 68, datatype: 0, pts: Rect::new(20, 60, 80, 90).as_boundary() },
        ],
    }
}

#[test]
fn renders_a_polygon_per_shape_and_a_legend() {
    let svg = render(&cell(), None, &[]);
    assert!(svg.starts_with("<svg"));
    assert!(svg.trim_end().ends_with("</svg>"));
    assert_eq!(svg.matches("<polygon").count(), 2, "one polygon per boundary");
    assert!(svg.contains("layer 66") && svg.contains("layer 68"), "both layers in legend");
    // layer 66 and 68 get distinct palette colours
    assert_ne!(color(66), color(68));
}

#[test]
fn layer_filter_restricts_output() {
    let svg = render(&cell(), Some(&[66]), &[]);
    assert_eq!(svg.matches("<polygon").count(), 1);
    assert!(svg.contains("layer 66") && !svg.contains("layer 68"));
}

#[test]
fn marks_draw_a_red_box_on_top() {
    let m = Mark { r: Rect::new(10, 10, 30, 30), label: "space < 100".into() };
    let svg = render(&cell(), None, std::slice::from_ref(&m));
    assert!(svg.contains("stroke=\"#d00\""), "violation box is red");
    assert!(svg.contains("space &lt; 100"), "label is escaped + shown");
    assert!(svg.contains("1 violation(s)"));
}

#[test]
fn empty_cell_still_emits_valid_svg() {
    let svg = render(&Cell { name: "e".into(), elements: vec![] }, None, &[]);
    assert!(svg.starts_with("<svg") && svg.trim_end().ends_with("</svg>"));
}

#[test]
fn exact_document_for_one_square() {
    // A 100 x 100 square: s = 7.6, so x = 16 + 7.6 * dx, y = 16 + 7.6 * (100 - dy).
    let c = Cell {
        name: "sq".into(),
        elements: vec![Element::Boundary { layer: 1, datatype: 0, pts: Rect::new(0, 0, 100, 100).as_boundary() }],
    };
    let svg = render(&c, None, &[]);
    let expected = "<svg xmlns=\"http://www.w3.org/2000/svg\" width=\"988\" height=\"792\" viewBox=\"0 0 988 792\" font-family=\"monospace\" font-size=\"11\">\n\
<rect width=\"988\" height=\"792\" fill=\"#fafafa\"/>\n\
<polygon points=\"16.0,776.0 776.0,776.0 776.0,16.0 16.0,16.0 16.0,776.0\" fill=\"#f28e2b\" fill-opacity=\"0.35\" stroke=\"#f28e2b\" stroke-width=\"1.90\"/>\n\
<text x=\"792.0\" y=\"16\" font-weight=\"bold\">layers</text>\n\
<rect x=\"792.0\" y=\"30.0\" width=\"12\" height=\"12\" fill=\"#f28e2b\" fill-opacity=\"0.6\" stroke=\"#f28e2b\"/>\n\
<text x=\"810.0\" y=\"40.0\">layer 1</text>\n\
</svg>\n";
    assert_eq!(svg, expected);
}

#[test]
fn rounding_follows_binary64_and_ties_to_even() {
    // A 160-unit-wide design: s = 4.75 exactly, so x = 16 + 4.75 * dx hits
    // exact ties at odd dx; those print to even.
    let c = Cell {
        name: "t".into(),
        elements: vec![Element::Path { layer: 2, datatype: 0, width: 4, pts: vec![(0, 0), (1, 0), (3, 0), (160, 0)] }],
    };
    let svg = render(&c, None, &[]);
    assert!(svg.contains("points=\"16.0,16.0 20.8,16.0 30.2,16.0 776.0,16.0\""), "{svg}");
    assert!(svg.contains("stroke-width=\"19.00\""), "{svg}");
}

#[test]
fn legend_lists_layers_once_in_increasing_order() {
    let c = Cell {
        name: "l".into(),
        elements: vec![
            Element::Box { layer: 9, datatype: 0, pts: Rect::new(0, 0, 10, 10).as_boundary() },
            Element::Boundary { layer: -3, datatype: 0, pts: Rect::new(0, 0, 5, 5).as_boundary() },
            Element::Boundary { layer: 9, datatype: 0, pts: Rect::new(1, 1, 2, 2).as_boundary() },
            Element::Text { layer: 50, texttype: 0, xy: (0, 0), string: "t".into() },
        ],
    };
    let svg = render(&c, None, &[]);
    let a = svg.find("layer -3").unwrap();
    let b = svg.find("layer 9").unwrap();
    assert!(a < b);
    assert_eq!(svg.matches("layer 9<").count(), 1);
    assert!(!svg.contains("layer 50"), "texts are not drawn");
    assert_eq!(svg.matches("<polygon").count(), 3);
}

#[test]
fn negative_layers_wrap_like_a_64_bit_usize() {
    // (2^64 - 1) % 14 == 1, so layer -1 shares layer 1's colour.
    assert_eq!(color(-1), color(1));
    assert_eq!(color(-1), "#f28e2b");
    assert_eq!(color(14), color(0));
}

#[test]
fn label_escaping_covers_all_three_characters() {
    let m = Mark { r: Rect::new(0, 0, 10, 10), label: "a&b<c>d".into() };
    let svg = render(&Cell::default(), None, std::slice::from_ref(&m));
    assert!(svg.contains(">a&amp;b&lt;c&gt;d</text>"), "{svg}");
}

/// The built-in demo layout: one cell with no references, so flattening it
/// gives back its own elements.
fn demo_cell() -> Cell {
    Cell {
        name: "demo".into(),
        elements: vec![
            Element::Boundary { layer: 66, datatype: 0, pts: Rect::new(0, 0, 400, 80).as_boundary() },
            Element::Boundary { layer: 66, datatype: 0, pts: Rect::new(0, 160, 400, 240).as_boundary() },
            Element::Boundary { layer: 68, datatype: 0, pts: Rect::new(120, 0, 200, 240).as_boundary() },
            Element::Path { layer: 70, datatype: 0, width: 20, pts: vec![(40, 40), (360, 40), (360, 200)] },
        ],
    }
}

#[test]
fn demo_renders() {
    let cell = demo_cell();
    let svg = render(&cell, None, &[]);
    assert!(svg.contains("layer 66") && svg.contains("layer 70"));
}

#[test]
fn every_vertex_lands_in_the_drawing_area() {
    let cell = Cell {
        name: "wide".into(),
        elements: vec![
            Element::Boundary { layer: 1, datatype: 0, pts: vec![(-2_000_000_000, 7), (2_000_000_000, -3), (5, 1_000_000_000), (-2_000_000_000, 7)] },
            Element::Path { layer: 2, datatype: 0, width: 9, pts: vec![(-17, -17), (123_456_789, 42)] },
        ],
    };
    let marks = [Mark { r: Rect::new(-1_999_999_999, -3, 1_999_999_999, 999_999_999), label: String::new() }];
    let svg = render(&cell, None, &marks);
    let mut seen = 0;
    for chunk in svg.split("points=\"").skip(1) {
        let pts = chunk.split('"').next().unwrap();
        for pair in pts.split(' ') {
            for v in pair.split(',') {
                let v: f64 = v.parse().unwrap();
                assert!((16.0..=777.0).contains(&v), "{v} outside the drawing area");
                seen += 1;
            }
        }
    }
    assert_eq!(seen, 12);
}

#[test]
fn up_is_up() {
    // a tall thin triangle: its apex (highest y) is drawn nearest the top
    let cell = Cell {
        name: "t".into(),
        elements: vec![Element::Boundary { layer: 1, datatype: 0, pts: vec![(0, 0), (10, 0), (5, 100), (0, 0)] }],
    };
    let svg = render(&cell, None, &[]);
    let pts = svg.split("points=\"").nth(1).unwrap().split('"').next().unwrap();
    let ys: Vec<f64> = pts.split(' ').map(|p| p.split(',').nth(1).unwrap().parse().unwrap()).collect();
    assert_eq!(ys[2], 16.0);
    assert!(ys[2] < ys[0] && ys[0] == ys[1] && ys[0] == 776.0);
}

#[test]
fn summary_counts_drawn_shapes_and_distinct_layers() {
    let cell = demo_cell();
    assert_eq!(
        view_summary("demo", &cell, None, None),
        "rendered top 'demo': 4 shape(s) across 3 layer(s) -> SVG (stdout)"
    );
    assert_eq!(
        view_summary("demo", &cell, Some(&[66, 99]), Some("out.svg")),
        "rendered top 'demo': 2 shape(s) across 1 layer(s) -> SVG (out.svg)"
    );
}

#[test]
fn the_png_palette_is_the_svg_palette_as_rgb() {
    for layer in [-32768i16, -15, -1, 0, 1, 5, 13, 14, 27, 66, 68, 70, 32767] {
        let (r, g, b) = rgb_exec(layer);
        assert_eq!(color(layer), format!("#{r:02x}{g:02x}{b:02x}"), "layer {layer}");
    }
}

#[test]
fn escaped_text_unescapes_to_itself() {
    for t in ["", "plain", "a&b<c>d", "&amp;", "<<&>>", "x &lt; y"] {
        let mut out = Vec::new();
        push_esc(&mut out, t);
        let e: String = out.iter().collect();
        assert!(!e.contains('<') && !e.contains('>'));
        let back = e.replace("&lt;", "<").replace("&gt;", ">").replace("&amp;", "&");
        assert_eq!(back, t);
    }
}
