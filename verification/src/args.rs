//! Command-line values: flag lookup, output kind, layer list, `--window`.

use vstd::prelude::*;
use crate::geom::Rect;
use crate::scan::{
    IntErr, chars_eq, chars_of, parse_int, parse_int_exec, split, split_exec, trim, trim_exec,
};
use crate::text::{push_str, string_from_chars};

verus! {

/// The characters of each argument.
pub open spec fn arg_seqs(args: Seq<String>) -> Seq<Seq<char>> {
    args.map_values(|a: String| a@)
}

/// The first position from `i` on that holds `name`.
pub open spec fn find_arg(args: Seq<Seq<char>>, name: Seq<char>, i: nat) -> Option<int>
    decreases args.len() - i,
{
    if i >= args.len() {
        None
    } else if args[i as int] == name {
        Some(i as int)
    } else {
        find_arg(args, name, i + 1)
    }
}

/// The value after the first occurrence of the flag `name`, if there is one.
pub open spec fn opt_value(args: Seq<Seq<char>>, name: Seq<char>) -> Option<Seq<char>> {
    match find_arg(args, name, 0) {
        Some(i) => if i + 1 < args.len() {
            Some(args[i + 1])
        } else {
            None
        },
        None => None,
    }
}

/// The value following the flag `name` (its first occurrence).
pub fn opt(args: &[String], name: &str) -> (r: Option<String>)
    ensures
        match r {
            Some(v) => opt_value(arg_seqs(args@), name@) == Some(v@),
            None => opt_value(arg_seqs(args@), name@) is None,
        },
{
    let ghost a = arg_seqs(args@);
    let nm = chars_of(name);
    let mut i: usize = 0;
    while i < args.len()
        invariant
            i <= args@.len(),
            a == arg_seqs(args@),
            nm@ == name@,
            find_arg(a, name@, 0) == find_arg(a, name@, i as nat),
        decreases args@.len() - i,
    {
        let ai = chars_of(args[i].as_str());
        if chars_eq(&ai, &nm) {
            assert(a[i as int] == name@);
            if i + 1 < args.len() {
                let v = args[i + 1].clone();
                assert(a[i + 1] == args@[i + 1]@);
                return Some(v);
            } else {
                return None;
            }
        }
        assert(a[i as int] == args@[i as int]@);
        i = i + 1;
    }
    None
}

/// The flag `name` is among the arguments.
pub fn has_arg(args: &[String], name: &str) -> (b: bool)
    ensures
        b == arg_seqs(args@).contains(name@),
{
    let ghost a = arg_seqs(args@);
    let nm = chars_of(name);
    let mut i: usize = 0;
    while i < args.len()
        invariant
            i <= args@.len(),
            a == arg_seqs(args@),
            nm@ == name@,
            forall|j: int| 0 <= j < i ==> a[j] != name@,
        decreases args@.len() - i,
    {
        let ai = chars_of(args[i].as_str());
        assert(a[i as int] == args@[i as int]@);
        if chars_eq(&ai, &nm) {
            return true;
        }
        i = i + 1;
    }
    false
}

/// The path ends in `.png`, ASCII letter case ignored.
pub open spec fn ends_png(p: Seq<char>) -> bool {
    let n = p.len() as int;
    &&& n >= 4
    &&& p[n - 4] == '.'
    &&& (p[n - 3] == 'p' || p[n - 3] == 'P')
    &&& (p[n - 2] == 'n' || p[n - 2] == 'N')
    &&& (p[n - 1] == 'g' || p[n - 1] == 'G')
}

/// PNG output is wanted: `--png` is given, or the `-o` path ends in `.png`.
pub open spec fn wants_png_spec(args: Seq<Seq<char>>) -> bool {
    args.contains("--png"@) || match opt_value(args, "-o"@) {
        Some(p) => ends_png(p),
        None => false,
    }
}

pub fn wants_png(args: &[String]) -> (b: bool)
    ensures
        b == wants_png_spec(arg_seqs(args@)),
{
    if has_arg(args, "--png") {
        return true;
    }
    match opt(args, "-o") {
        Some(p) => {
            let c = chars_of(p.as_str());
            let n = c.len();
            n >= 4 && c[n - 4] == '.' && (c[n - 3] == 'p' || c[n - 3] == 'P') && (c[n - 2] == 'n'
                || c[n - 2] == 'N') && (c[n - 1] == 'g' || c[n - 1] == 'G')
        },
        None => false,
    }
}

/// The pieces that read as layer numbers, in order; the others are skipped.
pub open spec fn layer_values(ps: Seq<Seq<char>>) -> Seq<i16>
    decreases ps.len(),
{
    if ps.len() == 0 {
        seq![]
    } else {
        let rest = layer_values(ps.drop_last());
        match parse_int(trim(ps.last()), -32768, 32767) {
            Ok(v) => rest.push(v as i16),
            Err(_) => rest,
        }
    }
}

/// `--layers L1,L2,...`: the comma-separated layer numbers that parse.
pub open spec fn layer_filter_spec(args: Seq<Seq<char>>) -> Option<Seq<i16>> {
    match opt_value(args, "--layers"@) {
        Some(s) => Some(layer_values(split(s, ','))),
        None => None,
    }
}

pub fn layer_filter(args: &[String]) -> (r: Option<Vec<i16>>)
    ensures
        match r {
            Some(v) => layer_filter_spec(arg_seqs(args@)) == Some(v@),
            None => layer_filter_spec(arg_seqs(args@)) is None,
        },
{
    match opt(args, "--layers") {
        None => None,
        Some(s) => {
            let c = chars_of(s.as_str());
            let parts = split_exec(&c, ',');
            let ghost ps = split(c@, ',');
            let mut out: Vec<i16> = Vec::new();
            let mut i: usize = 0;
            while i < parts.len()
                invariant
                    i <= parts@.len(),
                    parts@.len() == ps.len(),
                    forall|j: int| 0 <= j < parts@.len() ==> #[trigger] parts@[j]@ == ps[j],
                    out@ == layer_values(ps.subrange(0, i as int)),
                decreases parts@.len() - i,
            {
                let ghost sub1 = ps.subrange(0, i as int + 1);
                assert(sub1.drop_last() == ps.subrange(0, i as int));
                assert(sub1.last() == ps[i as int]);
                let t = trim_exec(&parts[i]);
                match parse_int_exec(&t, -32768, 32767) {
                    Ok(v) => {
                        out.push(v as i16);
                    },
                    Err(_) => {},
                }
                i = i + 1;
            }
            assert(ps.subrange(0, i as int) == ps);
            Some(out)
        },
    }
}

/// `format!("{:?}", s)` of a string: quoted, with Rust's escapes.
pub uninterp spec fn debug_text(s: Seq<char>) -> Seq<char>;

/// `format!("{:?}", s)`: std's `Debug` for `str`, the text quoted with
/// Rust's escapes.  Trusted: the contract claims only that the result is
/// `debug_text(s)`, a function of `s` alone; what that text is, is not stated.
#[verifier::external_body]
fn debug_quoted(s: &str) -> (r: String)
    ensures
        r@ == debug_text(s@),
{
    format!("{:?}", s)
}

/// The four `--window` values, trimmed.
pub open spec fn window_parts(spec: Seq<char>) -> Seq<Seq<char>> {
    split(spec, ',').map_values(|t: Seq<char>| trim(t))
}

pub open spec fn window_count_msg(spec: Seq<char>) -> Seq<char> {
    "--window needs 4 comma-separated db-unit values `x0,y0,x1,y1`, got "@ + debug_text(spec)
}

pub open spec fn window_int_msg(spec: Seq<char>) -> Seq<char> {
    "--window values must be integers (db units), got "@ + debug_text(spec)
}

pub open spec fn window_empty_msg(spec: Seq<char>) -> Seq<char> {
    "--window "@ + debug_text(spec) + " is empty or inverted: needs x1 > x0 and y1 > y0"@
}

pub open spec fn i32_of(t: Seq<char>) -> Result<int, IntErr> {
    parse_int(t, -0x8000_0000, 0x7fff_ffff)
}

/// `--window x0,y0,x1,y1`: exactly four comma-separated integers (spaces
/// around them allowed) with `x1 > x0` and `y1 > y0`; inverted or empty
/// windows are refused rather than repaired.
pub open spec fn window_spec(spec: Seq<char>) -> Result<Rect, Seq<char>> {
    let p = window_parts(spec);
    if p.len() != 4 {
        Err(window_count_msg(spec))
    } else if i32_of(p[0]) is Err || i32_of(p[1]) is Err || i32_of(p[2]) is Err || i32_of(
        p[3],
    ) is Err {
        Err(window_int_msg(spec))
    } else {
        let x0 = i32_of(p[0])->Ok_0;
        let y0 = i32_of(p[1])->Ok_0;
        let x1 = i32_of(p[2])->Ok_0;
        let y1 = i32_of(p[3])->Ok_0;
        if x1 <= x0 || y1 <= y0 {
            Err(window_empty_msg(spec))
        } else {
            Ok(Rect { x0: x0 as i32, y0: y0 as i32, x1: x1 as i32, y1: y1 as i32 })
        }
    }
}

/// Parse a `--window x0,y0,x1,y1` region in database units.
pub fn parse_window(spec: &str) -> (r: Result<Rect, String>)
    ensures
        match r {
            Ok(w) => window_spec(spec@) == Ok::<Rect, Seq<char>>(w),
            Err(e) => window_spec(spec@) == Err::<Rect, Seq<char>>(e@),
        },
{
    let c = chars_of(spec);
    let parts = split_exec(&c, ',');
    let ghost p = window_parts(spec@);
    if parts.len() != 4 {
        let mut m: Vec<char> = Vec::new();
        push_str(&mut m, "--window needs 4 comma-separated db-unit values `x0,y0,x1,y1`, got ");
        let d = debug_quoted(spec);
        push_str(&mut m, d.as_str());
        return Err(string_from_chars(&m));
    }
    let mut v: Vec<i64> = Vec::new();
    let mut k: usize = 0;
    while k < 4
        invariant
            k <= 4,
            parts@.len() == 4,
            p == window_parts(spec@),
            p.len() == 4,
            c@ == spec@,
            forall|j: int| 0 <= j < 4 ==> #[trigger] p[j] == trim(parts@[j]@),
            v@.len() == k,
            forall|j: int| 0 <= j < k ==> i32_of(p[j]) == Ok::<int, IntErr>(#[trigger] v@[j] as int),
        decreases 4 - k,
    {
        let t = trim_exec(&parts[k]);
        match parse_int_exec(&t, -0x8000_0000, 0x7fff_ffff) {
            Ok(x) => {
                v.push(x);
            },
            Err(_) => {
                assert(p[k as int] == trim(parts@[k as int]@));
                assert(i32_of(p[k as int]) is Err);
                assert(k == 0 || k == 1 || k == 2 || k == 3);
                assert(window_spec(spec@) == Err::<Rect, Seq<char>>(window_int_msg(spec@)));
                let mut m: Vec<char> = Vec::new();
                push_str(&mut m, "--window values must be integers (db units), got ");
                let d = debug_quoted(spec);
                push_str(&mut m, d.as_str());
                return Err(string_from_chars(&m));
            },
        }
        k = k + 1;
    }
    assert(i32_of(p[0]) == Ok::<int, IntErr>(v@[0] as int));
    assert(i32_of(p[1]) == Ok::<int, IntErr>(v@[1] as int));
    assert(i32_of(p[2]) == Ok::<int, IntErr>(v@[2] as int));
    assert(i32_of(p[3]) == Ok::<int, IntErr>(v@[3] as int));
    if v[2] <= v[0] || v[3] <= v[1] {
        let mut m: Vec<char> = Vec::new();
        push_str(&mut m, "--window ");
        let d = debug_quoted(spec);
        push_str(&mut m, d.as_str());
        push_str(&mut m, " is empty or inverted: needs x1 > x0 and y1 > y0");
        return Err(string_from_chars(&m));
    }
    proof {
        crate::scan::lemma_parse_int_range(p[0], -0x8000_0000, 0x7fff_ffff);
        crate::scan::lemma_parse_int_range(p[1], -0x8000_0000, 0x7fff_ffff);
        crate::scan::lemma_parse_int_range(p[2], -0x8000_0000, 0x7fff_ffff);
        crate::scan::lemma_parse_int_range(p[3], -0x8000_0000, 0x7fff_ffff);
    }
    Ok(Rect { x0: v[0] as i32, y0: v[1] as i32, x1: v[2] as i32, y1: v[3] as i32 })
}

/// `str::parse` of an unsigned integer type with maximum `hi`: an optional
/// `+` (a `-` is an invalid digit there), then at least one decimal digit.
pub open spec fn parse_uint(s: Seq<char>, hi: int) -> Result<int, IntErr> {
    if s.len() > 0 && s[0] == '-' {
        Err(IntErr::InvalidDigit)
    } else {
        parse_int(s, 0, hi)
    }
}

/// `--width N`: the PNG fit size in pixels, 700 when the flag is absent or
/// its value is not a `u32`.
pub open spec fn png_width_spec(args: Seq<Seq<char>>) -> u32 {
    match opt_value(args, "--width"@) {
        Some(s) => match parse_uint(s, 0xffff_ffff) {
            Ok(v) => v as u32,
            Err(_) => 700,
        },
        None => 700,
    }
}

pub fn png_width(args: &[String]) -> (n: u32)
    ensures
        n == png_width_spec(arg_seqs(args@)),
{
    match opt(args, "--width") {
        None => 700,
        Some(s) => {
            let c = chars_of(s.as_str());
            if c.len() > 0 && c[0] == '-' {
                return 700;
            }
            match parse_int_exec(&c, 0, 0xffff_ffff) {
                Ok(v) => {
                    proof {
                        crate::scan::lemma_parse_int_range(c@, 0, 0xffff_ffff);
                    }
                    v as u32
                },
                Err(_) => 700,
            }
        },
    }
}

/// A window that parses is never empty or inverted: `x0 < x1` and `y0 < y1`.
pub proof fn lemma_window_nonempty(spec: Seq<char>)
    ensures
        window_spec(spec) matches Ok(r) ==> r.x0 < r.x1 && r.y0 < r.y1,
{
    let p = window_parts(spec);
    if p.len() == 4 {
        crate::scan::lemma_parse_int_range(p[0], -0x8000_0000, 0x7fff_ffff);
        crate::scan::lemma_parse_int_range(p[1], -0x8000_0000, 0x7fff_ffff);
        crate::scan::lemma_parse_int_range(p[2], -0x8000_0000, 0x7fff_ffff);
        crate::scan::lemma_parse_int_range(p[3], -0x8000_0000, 0x7fff_ffff);
    }
}

} // verus!
