use vyges_gds_view::args::{layer_filter, opt, parse_window, png_width, wants_png};
use vyges_gds_view::marks::parse_marks;

fn args(v: &[&str]) -> Vec<String> {
    v.iter().map(|s| s.to_string()).collect()
}

#[test]
fn parses_marks_with_and_without_labels() {
    let m = parse_marks("# a comment\n0 0 50 400 width 50 < 100\n10 10 30 30\n").unwrap();
    assert_eq!(m.len(), 2);
    assert_eq!(m[0].label, "width 50 < 100");
    assert_eq!((m[0].r.x0, m[0].r.y1), (0, 400));
    assert_eq!(m[1].label, "");
}

#[test]
fn marks_normalize_reversed_corners() {
    let m = parse_marks("30 30 10 10\n").unwrap();
    assert_eq!(
        (m[0].r.x0, m[0].r.y0, m[0].r.x1, m[0].r.y1),
        (10, 10, 30, 30)
    );
}

#[test]
fn bad_marks_line_errors() {
    assert!(parse_marks("0 0 50\n").is_err());
    assert!(parse_marks("0 0 x 9\n").is_err());
}

#[test]
fn a_window_parses_to_its_db_unit_rect() {
    let w = parse_window("10,20,30,40").expect("a well-formed window");
    assert_eq!((w.x0, w.y0, w.x1, w.y1), (10, 20, 30, 40));
    // whitespace around the values is the natural thing to type
    let w = parse_window(" 10 , 20 , 30 , 40 ").expect("spaces are tolerated");
    assert_eq!((w.x0, w.y0, w.x1, w.y1), (10, 20, 30, 40));
    // db units are signed: a window may sit below/left of the origin
    let w = parse_window("-40,-40,0,0").expect("negative db coordinates are valid");
    assert_eq!((w.x0, w.y0, w.x1, w.y1), (-40, -40, 0, 0));
}

#[test]
fn an_inverted_or_empty_window_is_refused() {
    for spec in [
        "100,100,50,50",
        "100,0,50,80",
        "0,100,80,50",
        "10,10,10,20",
        "10,10,20,10",
    ] {
        let e = parse_window(spec).expect_err("{spec} should be refused");
        assert!(
            e.contains("empty or inverted"),
            "{spec} should say why: {e}"
        );
    }
}

#[test]
fn a_malformed_window_says_what_it_wanted() {
    for spec in ["1,2,3", "1,2,3,4,5", "", "a,b,c,d", "1,2,3,x"] {
        let e = parse_window(spec).expect_err("{spec} should be refused");
        assert!(
            e.contains("--window"),
            "the error should name the flag: {e}"
        );
    }
}

#[test]
fn window_messages_are_exact() {
    assert_eq!(
        parse_window("1,2").unwrap_err(),
        "--window needs 4 comma-separated db-unit values `x0,y0,x1,y1`, got \"1,2\""
    );
    assert_eq!(
        parse_window("1,2,3,x").unwrap_err(),
        "--window values must be integers (db units), got \"1,2,3,x\""
    );
    assert_eq!(
        parse_window("5,0,1,9").unwrap_err(),
        "--window \"5,0,1,9\" is empty or inverted: needs x1 > x0 and y1 > y0"
    );
    assert!(parse_window("0,0,2147483648,1").is_err(), "out of i32 range");
    assert!(parse_window("+1,+2,+3,+4").is_ok(), "a plus sign is allowed");
}

#[test]
fn marks_errors_name_the_line_and_the_reason() {
    assert_eq!(
        parse_marks("\n# only a comment\n0 0 50\n").err().unwrap(),
        "marks line 3: expected `x0 y0 x1 y1`"
    );
    assert_eq!(
        parse_marks("0 0 x 9\n").err().unwrap(),
        "marks line 1: invalid digit found in string"
    );
    assert_eq!(
        parse_marks("0 0 99999999999 9\n").err().unwrap(),
        "marks line 1: number too large to fit in target type"
    );
    assert_eq!(
        parse_marks("-99999999999 0 1 9\n").err().unwrap(),
        "marks line 1: number too small to fit in target type"
    );
    assert_eq!(
        parse_marks("- 0 1 9\n").err().unwrap(),
        "marks line 1: invalid digit found in string"
    );
}

#[test]
fn marks_skip_comments_and_join_label_words() {
    let m = parse_marks("  1\t2  3 4   a   b # tail\r\n\n#x\n").unwrap();
    assert_eq!(m.len(), 1);
    assert_eq!(m[0].label, "a b");
    assert_eq!((m[0].r.x0, m[0].r.y0, m[0].r.x1, m[0].r.y1), (1, 2, 3, 4));
    assert!(parse_marks("").unwrap().is_empty());
}

#[test]
fn flags_and_output_kind() {
    let a = args(&["render", "x.gds", "-o", "OUT.PnG", "--layers", "66, 68,x,70000,-3"]);
    assert_eq!(opt(&a, "-o").as_deref(), Some("OUT.PnG"));
    assert_eq!(opt(&a, "--top"), None);
    assert!(wants_png(&a));
    assert_eq!(layer_filter(&a), Some(vec![66, 68, -3]));
    let b = args(&["render", "x.gds", "-o", "out.svg", "--layers"]);
    assert!(!wants_png(&b));
    assert_eq!(layer_filter(&b), None, "a flag without a value gives nothing");
    let c = args(&["demo", "--png"]);
    assert!(wants_png(&c));
    assert_eq!(layer_filter(&c), None);
}

#[test]
fn png_width_defaults_to_700() {
    assert_eq!(png_width(&args(&["render", "a.gds"])), 700);
    assert_eq!(png_width(&args(&["render", "a.gds", "--width", "256"])), 256);
    assert_eq!(png_width(&args(&["render", "a.gds", "--width", "+64"])), 64);
    assert_eq!(png_width(&args(&["render", "a.gds", "--width", "-0"])), 700);
    assert_eq!(png_width(&args(&["render", "a.gds", "--width", "4294967295"])), 4294967295);
    assert_eq!(png_width(&args(&["render", "a.gds", "--width", "4294967296"])), 700);
    assert_eq!(png_width(&args(&["render", "a.gds", "--width", " 64"])), 700);
    assert_eq!(png_width(&args(&["render", "a.gds", "--width"])), 700);
}

#[test]
fn marks_of_two_texts_read_one_after_the_other() {
    let a = "0 0 50 400 first\n# note\n";
    let b = "30 30 10 10 second\n\n5 6 7 8";
    let ma = parse_marks(a).unwrap();
    let mb = parse_marks(b).unwrap();
    let both = parse_marks(&format!("{a}{b}")).unwrap();
    assert_eq!(both.len(), ma.len() + mb.len());
    for (x, y) in both.iter().zip(ma.iter().chain(mb.iter())) {
        assert_eq!((x.r.x0, x.r.y0, x.r.x1, x.r.y1), (y.r.x0, y.r.y0, y.r.x1, y.r.y1));
        assert_eq!(x.label, y.label);
    }
    assert_eq!(both[1].label, "second");
}
