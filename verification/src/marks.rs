//! The marks file: one violation per line, `x0 y0 x1 y1 [label...]` in
//! database units; `#` starts a comment.

use vstd::prelude::*;
use crate::geom::Rect;
use crate::scan::{
    IntErr, chars_of, int_err_text, lemma_parse_int_range, lemma_split_concat, lemma_split_ends_empty,
    parse_int, parse_int_exec, split, split_exec, trim, trim_exec, words, words_exec,
};
use crate::svg::Mark;
use crate::text::{dec, push_dec, push_str, string_from_chars};

verus! {

/// Words joined by single spaces.
pub open spec fn join_words(ws: Seq<Seq<char>>) -> Seq<char>
    decreases ws.len(),
{
    if ws.len() == 0 {
        seq![]
    } else if ws.len() == 1 {
        ws[0]
    } else {
        join_words(ws.drop_last()) + seq![' '] + ws.last()
    }
}

/// `"marks line N"`.
pub open spec fn line_tag(no: nat) -> Seq<char> {
    "marks line "@ + dec(no)
}

/// Coordinate `k` of a line's words, or the message for its absence or for
/// why it does not read as an `i32`.
pub open spec fn coord(ws: Seq<Seq<char>>, k: int, no: nat) -> Result<int, Seq<char>> {
    if k >= ws.len() {
        Err(line_tag(no) + ": expected `x0 y0 x1 y1`"@)
    } else {
        match parse_int(ws[k], -0x8000_0000, 0x7fff_ffff) {
            Ok(v) => Ok(v),
            Err(e) => Err(line_tag(no) + ": "@ + int_err_text(e)),
        }
    }
}

/// A mark from four corners: the rectangle with its corners put in order.
pub open spec fn mark_of(x0: int, y0: int, x1: int, y1: int, label: Seq<char>) -> (Rect, Seq<char>) {
    (
        Rect {
            x0: (if x0 <= x1 { x0 } else { x1 }) as i32,
            y0: (if y0 <= y1 { y0 } else { y1 }) as i32,
            x1: (if x0 <= x1 { x1 } else { x0 }) as i32,
            y1: (if y0 <= y1 { y1 } else { y0 }) as i32,
        },
        label,
    )
}

/// What line number `no` holds: nothing (blank or comment), a mark, or an
/// error message.
pub open spec fn line_mark(line: Seq<char>, no: nat) -> Option<Result<(Rect, Seq<char>), Seq<char>>> {
    let l = trim(split(line, '#')[0]);
    if l.len() == 0 {
        None
    } else {
        let ws = words(l);
        match coord(ws, 0, no) {
            Err(e) => Some(Err(e)),
            Ok(x0) => match coord(ws, 1, no) {
                Err(e) => Some(Err(e)),
                Ok(y0) => match coord(ws, 2, no) {
                    Err(e) => Some(Err(e)),
                    Ok(x1) => match coord(ws, 3, no) {
                        Err(e) => Some(Err(e)),
                        Ok(y1) => Some(
                            Ok(mark_of(x0, y0, x1, y1, join_words(ws.subrange(4, ws.len() as int)))),
                        ),
                    },
                },
            },
        }
    }
}

/// The marks of the lines, in order, or the first line's error.
pub open spec fn marks_from(lines: Seq<Seq<char>>) -> Result<Seq<(Rect, Seq<char>)>, Seq<char>>
    decreases lines.len(),
{
    if lines.len() == 0 {
        Ok(seq![])
    } else {
        match marks_from(lines.drop_last()) {
            Err(e) => Err(e),
            Ok(ms) => match line_mark(lines.last(), lines.len()) {
                None => Ok(ms),
                Some(Ok(m)) => Ok(ms.push(m)),
                Some(Err(e)) => Err(e),
            },
        }
    }
}

/// The marks of a file: its lines are the pieces between newlines.
pub open spec fn marks_spec(text: Seq<char>) -> Result<Seq<(Rect, Seq<char>)>, Seq<char>> {
    marks_from(split(text, '\n'))
}

fn tag_msg(no: usize, rest: &str) -> (m: Vec<char>)
    ensures
        m@ == line_tag(no as nat) + rest@,
{
    let mut m: Vec<char> = Vec::new();
    push_str(&mut m, "marks line ");
    push_dec(&mut m, no as u128);
    push_str(&mut m, rest);
    m
}

fn int_err_str(e: IntErr) -> (s: &'static str)
    ensures
        s@ == int_err_text(e),
{
    match e {
        IntErr::Empty => "cannot parse integer from empty string",
        IntErr::InvalidDigit => "invalid digit found in string",
        IntErr::PosOverflow => "number too large to fit in target type",
        IntErr::NegOverflow => "number too small to fit in target type",
    }
}

fn coord_exec(ws: &Vec<Vec<char>>, k: usize, no: usize, ghost_ws: Ghost<Seq<Seq<char>>>) -> (r: Result<
    i32,
    Vec<char>,
>)
    requires
        ghost_ws@.len() == ws@.len(),
        forall|i: int| 0 <= i < ws@.len() ==> #[trigger] ws@[i]@ == ghost_ws@[i],
    ensures
        match r {
            Ok(v) => coord(ghost_ws@, k as int, no as nat) == Ok::<int, Seq<char>>(v as int),
            Err(m) => coord(ghost_ws@, k as int, no as nat) == Err::<int, Seq<char>>(m@),
        },
{
    if k >= ws.len() {
        return Err(tag_msg(no, ": expected `x0 y0 x1 y1`"));
    }
    match parse_int_exec(&ws[k], -0x8000_0000, 0x7fff_ffff) {
        Ok(v) => {
            proof {
                crate::scan::lemma_parse_int_range(ws@[k as int]@, -0x8000_0000, 0x7fff_ffff);
            }
            Ok(v as i32)
        },
        Err(e) => {
            let mut m = tag_msg(no, ": ");
            push_str(&mut m, int_err_str(e));
            Err(m)
        },
    }
}

fn join_exec(ws: &Vec<Vec<char>>, from: usize) -> (j: Vec<char>)
    requires
        from <= ws@.len(),
    ensures
        j@ == join_words(ws@.subrange(from as int, ws@.len() as int).map_values(|w: Vec<char>| w@)),
{
    let mut j: Vec<char> = Vec::new();
    let mut i: usize = from;
    while i < ws.len()
        invariant
            from <= i <= ws@.len(),
            j@ == join_words(ws@.subrange(from as int, i as int).map_values(|w: Vec<char>| w@)),
        decreases ws@.len() - i,
    {
        let ghost pre = ws@.subrange(from as int, i as int).map_values(|w: Vec<char>| w@);
        let ghost nxt = ws@.subrange(from as int, i as int + 1).map_values(|w: Vec<char>| w@);
        assert(nxt.drop_last() == pre);
        assert(nxt.last() == ws@[i as int]@);
        if i > from {
            j.push(' ');
        }
        let w = &ws[i];
        let mut t: usize = 0;
        let ghost base = j@;
        while t < w.len()
            invariant
                t <= w@.len(),
                j@ == base + w@.subrange(0, t as int),
            decreases w@.len() - t,
        {
            j.push(w[t]);
            t = t + 1;
            assert(w@.subrange(0, t as int) == w@.subrange(0, t - 1).push(w@[t - 1]));
        }
        assert(w@.subrange(0, t as int) == w@);
        if i == from {
            assert(nxt.len() == 1 && nxt[0] == w@);
            assert(pre.len() == 0);
        }
        i = i + 1;
    }
    j
}

/// Reads line number `no`.
fn line_exec(line: &Vec<char>, no: usize) -> (r: Option<Result<Mark, Vec<char>>>)
    ensures
        match r {
            None => line_mark(line@, no as nat) is None,
            Some(Ok(m)) => line_mark(line@, no as nat) == Some(
                Ok::<(Rect, Seq<char>), Seq<char>>((m.r, m.label@)),
            ),
            Some(Err(e)) => line_mark(line@, no as nat) == Some(
                Err::<(Rect, Seq<char>), Seq<char>>(e@),
            ),
        },
{
    let pieces = split_exec(line, '#');
    proof {
        crate::scan::lemma_split_nonempty(line@, '#');
    }
    let l = trim_exec(&pieces[0]);
    if l.len() == 0 {
        return None;
    }
    let ws = words_exec(&l);
    let ghost gw = words(l@);
    let x0 = match coord_exec(&ws, 0, no, Ghost(gw)) {
        Ok(v) => v,
        Err(e) => {
            return Some(Err(e));
        },
    };
    let y0 = match coord_exec(&ws, 1, no, Ghost(gw)) {
        Ok(v) => v,
        Err(e) => {
            return Some(Err(e));
        },
    };
    let x1 = match coord_exec(&ws, 2, no, Ghost(gw)) {
        Ok(v) => v,
        Err(e) => {
            return Some(Err(e));
        },
    };
    let y1 = match coord_exec(&ws, 3, no, Ghost(gw)) {
        Ok(v) => v,
        Err(e) => {
            return Some(Err(e));
        },
    };
    let lab = join_exec(&ws, 4);
    assert(ws@.subrange(4, ws@.len() as int).map_values(|w: Vec<char>| w@) == gw.subrange(
        4,
        gw.len() as int,
    ));
    let r = Rect::new(
        if x0 <= x1 {
            x0
        } else {
            x1
        },
        if y0 <= y1 {
            y0
        } else {
            y1
        },
        if x0 <= x1 {
            x1
        } else {
            x0
        },
        if y0 <= y1 {
            y1
        } else {
            y0
        },
    );
    Some(Ok(Mark { r, label: string_from_chars(&lab) }))
}

/// Parse a marks file: one violation per line, `x0 y0 x1 y1 [label...]`, `#`
/// comments; reversed corners are put in order.
pub fn parse_marks(text: &str) -> (r: Result<Vec<Mark>, String>)
    ensures
        match r {
            Ok(v) => marks_spec(text@) matches Ok(ms) && ms.len() == v@.len() && forall|i: int|
                0 <= i < v@.len() ==> ms[i] == (#[trigger] v@[i].r, v@[i].label@),
            Err(e) => marks_spec(text@) == Err::<Seq<(Rect, Seq<char>)>, Seq<char>>(e@),
        },
{
    let c = chars_of(text);
    let lines = split_exec(&c, '\n');
    let ghost ls = split(text@, '\n');
    let mut out: Vec<Mark> = Vec::new();
    let mut n: usize = 0;
    while n < lines.len()
        invariant
            n <= lines@.len(),
            ls == split(text@, '\n'),
            lines@.len() == ls.len(),
            forall|j: int| 0 <= j < lines@.len() ==> #[trigger] lines@[j]@ == ls[j],
            marks_from(ls.subrange(0, n as int)) matches Ok(ms) && ms.len() == out@.len() && forall|
                i: int,
            |
                0 <= i < out@.len() ==> ms[i] == (#[trigger] out@[i].r, out@[i].label@),
        decreases lines@.len() - n,
    {
        let ghost sub1 = ls.subrange(0, n as int + 1);
        assert(sub1.drop_last() == ls.subrange(0, n as int));
        assert(sub1.last() == ls[n as int]);
        let ghost before = out@;
        match line_exec(&lines[n], n + 1) {
            None => {},
            Some(Ok(m)) => {
                out.push(m);
            },
            Some(Err(e)) => {
                proof {
                    assert(lines@[n as int]@ == ls[n as int]);
                    assert(marks_from(sub1) == Err::<Seq<(Rect, Seq<char>)>, Seq<char>>(e@));
                    lemma_marks_from_stops(ls, n as int + 1);
                }
                return Err(string_from_chars(&e));
            },
        }
        n = n + 1;
    }
    assert(ls.subrange(0, n as int) == ls);
    Ok(out)
}

/// Once a prefix of the lines fails, the whole file fails the same way.
pub proof fn lemma_marks_from_stops(ls: Seq<Seq<char>>, k: int)
    requires
        0 <= k <= ls.len(),
        marks_from(ls.subrange(0, k)) is Err,
    ensures
        marks_from(ls) == marks_from(ls.subrange(0, k)),
    decreases ls.len() - k,
{
    if k < ls.len() {
        let t = ls.subrange(0, k + 1);
        assert(t.drop_last() == ls.subrange(0, k));
        lemma_marks_from_stops(ls, k + 1);
    } else {
        assert(ls.subrange(0, k) == ls);
    }
}

/// Every mark a file yields has its corners in order: `x0 <= x1`, `y0 <= y1`.
pub proof fn lemma_marks_normalized(text: Seq<char>)
    ensures
        marks_spec(text) matches Ok(ms) ==> forall|i: int|
            0 <= i < ms.len() ==> (#[trigger] ms[i]).0.x0 <= ms[i].0.x1 && ms[i].0.y0 <= ms[i].0.y1,
{
    lemma_marks_from_normalized(split(text, '\n'));
}

proof fn lemma_marks_from_normalized(ls: Seq<Seq<char>>)
    ensures
        marks_from(ls) matches Ok(ms) ==> forall|i: int|
            0 <= i < ms.len() ==> (#[trigger] ms[i]).0.x0 <= ms[i].0.x1 && ms[i].0.y0 <= ms[i].0.y1,
    decreases ls.len(),
{
    if ls.len() > 0 {
        lemma_marks_from_normalized(ls.drop_last());
        let l = trim(split(ls.last(), '#')[0]);
        let ws = words(l);
        let no = ls.len();
        if l.len() > 0 {
            if let (Ok(x0), Ok(y0), Ok(x1), Ok(y1)) = (
                coord(ws, 0, no),
                coord(ws, 1, no),
                coord(ws, 2, no),
                coord(ws, 3, no),
            ) {
                lemma_parse_int_range(ws[0], -0x8000_0000, 0x7fff_ffff);
                lemma_parse_int_range(ws[1], -0x8000_0000, 0x7fff_ffff);
                lemma_parse_int_range(ws[2], -0x8000_0000, 0x7fff_ffff);
                lemma_parse_int_range(ws[3], -0x8000_0000, 0x7fff_ffff);
            }
        }
    }
}


/// What a line holds does not depend on its number, but for the wording of an
/// error: blank stays blank, a mark stays the same mark, an error stays an
/// error.
proof fn lemma_line_mark_renumber(line: Seq<char>, n1: nat, n2: nat)
    ensures
        line_mark(line, n1) is None <==> line_mark(line, n2) is None,
        line_mark(line, n1) matches Some(Ok(m)) ==> line_mark(line, n2) == Some(
            Ok::<(Rect, Seq<char>), Seq<char>>(m),
        ),
        line_mark(line, n1) matches Some(Err(_)) ==> line_mark(line, n2) matches Some(Err(_)),
{
}

/// The lines `ls1` then `ls2`, each read without error, give the marks of
/// `ls1` followed by those of `ls2`.
proof fn lemma_marks_from_concat(
    ls1: Seq<Seq<char>>,
    ls2: Seq<Seq<char>>,
    m1: Seq<(Rect, Seq<char>)>,
    m2: Seq<(Rect, Seq<char>)>,
)
    requires
        marks_from(ls1) == Ok::<Seq<(Rect, Seq<char>)>, Seq<char>>(m1),
        marks_from(ls2) == Ok::<Seq<(Rect, Seq<char>)>, Seq<char>>(m2),
    ensures
        marks_from(ls1 + ls2) == Ok::<Seq<(Rect, Seq<char>)>, Seq<char>>(m1 + m2),
    decreases ls2.len(),
{
    if ls2.len() == 0 {
        assert(ls1 + ls2 =~= ls1);
        assert(m1 + m2 =~= m1);
    } else {
        let l = ls2.last();
        let all = ls1 + ls2;
        assert(all.drop_last() =~= ls1 + ls2.drop_last());
        assert(all.last() == l);
        lemma_line_mark_renumber(l, ls2.len(), all.len());
        lemma_line_mark_renumber(l, all.len(), ls2.len());
        match marks_from(ls2.drop_last()) {
            Ok(m2p) => {
                lemma_marks_from_concat(ls1, ls2.drop_last(), m1, m2p);
                match line_mark(l, ls2.len()) {
                    None => {},
                    Some(Ok(m)) => {
                        assert((m1 + m2p).push(m) =~= m1 + m2p.push(m));
                    },
                    Some(Err(_)) => {},
                }
            },
            Err(_) => {},
        }
    }
}

/// Two marks texts read one after the other, the first empty or ending in a
/// newline: when each reads without error, together they give the marks of
/// the first followed by those of the second.
pub proof fn lemma_marks_concat(
    a: Seq<char>,
    b: Seq<char>,
    ma: Seq<(Rect, Seq<char>)>,
    mb: Seq<(Rect, Seq<char>)>,
)
    requires
        a.len() == 0 || a.last() == '\n',
        marks_spec(a) == Ok::<Seq<(Rect, Seq<char>)>, Seq<char>>(ma),
        marks_spec(b) == Ok::<Seq<(Rect, Seq<char>)>, Seq<char>>(mb),
    ensures
        marks_spec(a + b) == Ok::<Seq<(Rect, Seq<char>)>, Seq<char>>(ma + mb),
{
    lemma_split_concat(a, b, '\n');
    lemma_split_ends_empty(a, '\n');
    let sa = split(a, '\n');
    assert(line_mark(Seq::<char>::empty(), sa.len()) is None) by {
        let e = Seq::<char>::empty();
        assert(split(e, '#')[0] == e);
        assert(trim(e) == e);
    }
    assert(marks_from(sa.drop_last()) == Ok::<Seq<(Rect, Seq<char>)>, Seq<char>>(ma));
    lemma_marks_from_concat(sa.drop_last(), split(b, '\n'), ma, mb);
}

} // verus!
