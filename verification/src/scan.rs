//! Reading text: whitespace trimming, splitting, and integers as `str::parse`
//! reads them.

use vstd::prelude::*;

verus! {

/// Unicode `White_Space`, as `char::is_whitespace` tests it.
pub open spec fn is_ws(c: char) -> bool {
    ('\u{9}' <= c && c <= '\u{d}') || c == ' ' || c == '\u{85}' || c == '\u{a0}' || c == '\u{1680}'
        || ('\u{2000}' <= c && c <= '\u{200a}') || c == '\u{2028}' || c == '\u{2029}' || c
        == '\u{202f}' || c == '\u{205f}' || c == '\u{3000}'
}

pub fn is_ws_exec(c: char) -> (b: bool)
    ensures
        b == is_ws(c),
{
    ('\u{9}' <= c && c <= '\u{d}') || c == ' ' || c == '\u{85}' || c == '\u{a0}' || c == '\u{1680}'
        || ('\u{2000}' <= c && c <= '\u{200a}') || c == '\u{2028}' || c == '\u{2029}' || c
        == '\u{202f}' || c == '\u{205f}' || c == '\u{3000}'
}

pub open spec fn trim_start(s: Seq<char>) -> Seq<char>
    decreases s.len(),
{
    if s.len() > 0 && is_ws(s[0]) {
        trim_start(s.drop_first())
    } else {
        s
    }
}

pub open spec fn trim_end(s: Seq<char>) -> Seq<char>
    decreases s.len(),
{
    if s.len() > 0 && is_ws(s.last()) {
        trim_end(s.drop_last())
    } else {
        s
    }
}

/// `str::trim`: whitespace removed at both ends.
pub open spec fn trim(s: Seq<char>) -> Seq<char> {
    trim_end(trim_start(s))
}

/// The characters of a string.
pub fn chars_of(s: &str) -> (v: Vec<char>)
    ensures
        v@ == s@,
{
    let n = s.unicode_len();
    let mut v: Vec<char> = Vec::new();
    let mut i: usize = 0;
    while i < n
        invariant
            n == s@.len(),
            i <= n,
            v@ == s@.subrange(0, i as int),
        decreases n - i,
    {
        v.push(s.get_char(i));
        i = i + 1;
        assert(s@.subrange(0, i as int) == s@.subrange(0, i - 1).push(s@[i - 1]));
    }
    assert(s@.subrange(0, n as int) == s@);
    v
}

/// The characters `s[lo..hi]`.
pub fn slice_chars(s: &Vec<char>, lo: usize, hi: usize) -> (v: Vec<char>)
    requires
        lo <= hi <= s@.len(),
    ensures
        v@ == s@.subrange(lo as int, hi as int),
{
    let mut v: Vec<char> = Vec::new();
    let mut i: usize = lo;
    while i < hi
        invariant
            lo <= i <= hi <= s@.len(),
            v@ == s@.subrange(lo as int, i as int),
        decreases hi - i,
    {
        v.push(s[i]);
        i = i + 1;
        assert(s@.subrange(lo as int, i as int) == s@.subrange(lo as int, i - 1).push(s@[i - 1]));
    }
    v
}

/// `str::trim`.
pub fn trim_exec(s: &Vec<char>) -> (t: Vec<char>)
    ensures
        t@ == trim(s@),
{
    let n = s.len();
    let mut lo: usize = 0;
    assert(s@.subrange(0, n as int) == s@);
    while lo < n && is_ws_exec(s[lo])
        invariant
            n == s@.len(),
            lo <= n,
            trim_start(s@) == trim_start(s@.subrange(lo as int, n as int)),
        decreases n - lo,
    {
        let ghost t = s@.subrange(lo as int, n as int);
        assert(t.drop_first() == s@.subrange(lo + 1, n as int));
        lo = lo + 1;
    }
    let ghost ts = s@.subrange(lo as int, n as int);
    assert(trim_start(ts) == ts);
    let mut hi: usize = n;
    while hi > lo && is_ws_exec(s[hi - 1])
        invariant
            n == s@.len(),
            lo <= hi <= n,
            ts == s@.subrange(lo as int, n as int),
            trim(s@) == trim_end(s@.subrange(lo as int, hi as int)),
        decreases hi - lo,
    {
        let ghost t = s@.subrange(lo as int, hi as int);
        assert(t.drop_last() == s@.subrange(lo as int, hi - 1));
        hi = hi - 1;
    }
    let ghost te = s@.subrange(lo as int, hi as int);
    assert(trim_end(te) == te);
    slice_chars(s, lo, hi)
}

/// `str::split(sep)`: the pieces between separators (one empty piece for an
/// empty text; a separator at either end gives an empty piece there).
pub open spec fn split(s: Seq<char>, sep: char) -> Seq<Seq<char>>
    decreases s.len(),
{
    if s.len() == 0 {
        seq![seq![]]
    } else {
        let p = split(s.drop_last(), sep);
        if s.last() == sep {
            p.push(seq![])
        } else {
            p.update(p.len() - 1, p.last().push(s.last()))
        }
    }
}

pub proof fn lemma_split_nonempty(s: Seq<char>, sep: char)
    ensures
        split(s, sep).len() >= 1,
    decreases s.len(),
{
    if s.len() > 0 {
        lemma_split_nonempty(s.drop_last(), sep);
    }
}

/// Text that is empty or ends in the separator splits with an empty last
/// piece.
pub proof fn lemma_split_ends_empty(a: Seq<char>, sep: char)
    requires
        a.len() == 0 || a.last() == sep,
    ensures
        split(a, sep).len() >= 1,
        split(a, sep).last() == Seq::<char>::empty(),
{
    lemma_split_nonempty(a, sep);
}

/// Splitting `a + b`, where `a` is empty or ends in the separator: the pieces
/// of `a` but its empty last one, then the pieces of `b`.
pub proof fn lemma_split_concat(a: Seq<char>, b: Seq<char>, sep: char)
    requires
        a.len() == 0 || a.last() == sep,
    ensures
        split(a + b, sep) == split(a, sep).drop_last() + split(b, sep),
    decreases b.len(),
{
    lemma_split_ends_empty(a, sep);
    let pa = split(a, sep).drop_last();
    if b.len() == 0 {
        assert(a + b =~= a);
        assert(pa + split(b, sep) =~= split(a, sep));
    } else {
        let bp = b.drop_last();
        let c = b.last();
        lemma_split_concat(a, bp, sep);
        lemma_split_nonempty(bp, sep);
        assert((a + b).drop_last() =~= a + bp);
        assert((a + b).last() == c);
        let q = split(bp, sep);
        if c == sep {
            assert((pa + q).push(seq![]) =~= pa + q.push(seq![]));
        } else {
            let pq = pa + q;
            assert(pq.last() == q.last());
            assert(pq.update(pq.len() - 1, pq.last().push(c)) =~= pa + q.update(
                q.len() - 1,
                q.last().push(c),
            ));
        }
    }
}

/// `str::split(sep)`.
pub fn split_exec(s: &Vec<char>, sep: char) -> (parts: Vec<Vec<char>>)
    ensures
        parts@.len() == split(s@, sep).len(),
        forall|i: int| 0 <= i < parts@.len() ==> #[trigger] parts@[i]@ == split(s@, sep)[i],
{
    let mut parts: Vec<Vec<char>> = Vec::new();
    let mut cur: Vec<char> = Vec::new();
    let mut i: usize = 0;
    while i < s.len()
        invariant
            i <= s@.len(),
            parts@.len() + 1 == split(s@.subrange(0, i as int), sep).len(),
            forall|j: int|
                0 <= j < parts@.len() ==> #[trigger] parts@[j]@ == split(
                    s@.subrange(0, i as int),
                    sep,
                )[j],
            cur@ == split(s@.subrange(0, i as int), sep).last(),
        decreases s@.len() - i,
    {
        let ghost pre = s@.subrange(0, i as int);
        let ghost sub1 = s@.subrange(0, i as int + 1);
        assert(sub1.drop_last() == pre);
        assert(sub1.last() == s@[i as int]);
        proof {
            lemma_split_nonempty(pre, sep);
        }
        let c = s[i];
        if c == sep {
            let done = cur;
            parts.push(done);
            cur = Vec::new();
        } else {
            cur.push(c);
        }
        i = i + 1;
    }
    assert(s@.subrange(0, i as int) == s@);
    parts.push(cur);
    parts
}

/// The non-empty pieces of a sequence of pieces.
pub open spec fn non_empty(ps: Seq<Seq<char>>) -> Seq<Seq<char>>
    decreases ps.len(),
{
    if ps.len() == 0 {
        seq![]
    } else if ps.last().len() == 0 {
        non_empty(ps.drop_last())
    } else {
        non_empty(ps.drop_last()).push(ps.last())
    }
}

/// Pieces between whitespace characters.
pub open spec fn split_ws(s: Seq<char>) -> Seq<Seq<char>>
    decreases s.len(),
{
    if s.len() == 0 {
        seq![seq![]]
    } else {
        let p = split_ws(s.drop_last());
        if is_ws(s.last()) {
            p.push(seq![])
        } else {
            p.update(p.len() - 1, p.last().push(s.last()))
        }
    }
}

/// `str::split_whitespace`: the non-empty runs of non-whitespace characters.
pub open spec fn words(s: Seq<char>) -> Seq<Seq<char>> {
    non_empty(split_ws(s))
}

pub proof fn lemma_split_ws_nonempty(s: Seq<char>)
    ensures
        split_ws(s).len() >= 1,
    decreases s.len(),
{
    if s.len() > 0 {
        lemma_split_ws_nonempty(s.drop_last());
    }
}

/// `str::split_whitespace`.
pub fn words_exec(s: &Vec<char>) -> (ws: Vec<Vec<char>>)
    ensures
        ws@.len() == words(s@).len(),
        forall|i: int| 0 <= i < ws@.len() ==> #[trigger] ws@[i]@ == words(s@)[i],
{
    let mut ws: Vec<Vec<char>> = Vec::new();
    let mut cur: Vec<char> = Vec::new();
    let mut i: usize = 0;
    while i < s.len()
        invariant
            i <= s@.len(),
            ws@.len() == non_empty(split_ws(s@.subrange(0, i as int)).drop_last()).len(),
            forall|j: int|
                0 <= j < ws@.len() ==> #[trigger] ws@[j]@ == non_empty(
                    split_ws(s@.subrange(0, i as int)).drop_last(),
                )[j],
            cur@ == split_ws(s@.subrange(0, i as int)).last(),
        decreases s@.len() - i,
    {
        let ghost pre = s@.subrange(0, i as int);
        let ghost sub1 = s@.subrange(0, i as int + 1);
        assert(sub1.drop_last() == pre);
        assert(sub1.last() == s@[i as int]);
        proof {
            lemma_split_ws_nonempty(pre);
        }
        let ghost p = split_ws(pre);
        let c = s[i];
        if is_ws_exec(c) {
            if cur.len() > 0 {
                let done = cur;
                ws.push(done);
            }
            cur = Vec::new();
            proof {
                let q = split_ws(sub1);
                assert(q == p.push(seq![]));
                assert(q.drop_last() == p);
                assert(p == p.drop_last().push(p.last()));
            }
        } else {
            cur.push(c);
            proof {
                let q = split_ws(sub1);
                assert(q.drop_last() == p.drop_last());
            }
        }
        i = i + 1;
    }
    assert(s@.subrange(0, i as int) == s@);
    proof {
        lemma_split_ws_nonempty(s@);
        let p = split_ws(s@);
        assert(p == p.drop_last().push(p.last()));
    }
    if cur.len() > 0 {
        ws.push(cur);
    }
    ws
}

/// Why `str::parse` refused an integer (`IntErrorKind`).
#[derive(Clone, Copy, Debug, PartialEq, Eq, Structural)]
pub enum IntErr {
    Empty,
    InvalidDigit,
    PosOverflow,
    NegOverflow,
}

/// The value of a decimal digit.
pub open spec fn digit_of(c: char) -> Option<int> {
    if '0' <= c && c <= '9' {
        Some(c as int - 48)
    } else {
        None
    }
}

/// Digits read left to right into a value in `[lo, hi]`, negated for a minus
/// sign: the first bad digit or the first step out of range stops it.
pub open spec fn digits_value(ds: Seq<char>, neg: bool, lo: int, hi: int) -> Result<int, IntErr>
    decreases ds.len(),
{
    if ds.len() == 0 {
        Ok(0)
    } else {
        match digits_value(ds.drop_last(), neg, lo, hi) {
            Err(e) => Err(e),
            Ok(r) => match digit_of(ds.last()) {
                None => Err(IntErr::InvalidDigit),
                Some(d) => if neg {
                    if r * 10 - d < lo {
                        Err(IntErr::NegOverflow)
                    } else {
                        Ok(r * 10 - d)
                    }
                } else {
                    if r * 10 + d > hi {
                        Err(IntErr::PosOverflow)
                    } else {
                        Ok(r * 10 + d)
                    }
                },
            },
        }
    }
}

/// `str::parse` of a signed integer type with range `[lo, hi]`: an optional
/// `+` or `-`, then at least one decimal digit.
pub open spec fn parse_int(s: Seq<char>, lo: int, hi: int) -> Result<int, IntErr> {
    if s.len() == 0 {
        Err(IntErr::Empty)
    } else if s.len() == 1 && (s[0] == '+' || s[0] == '-') {
        Err(IntErr::InvalidDigit)
    } else if s[0] == '+' {
        digits_value(s.drop_first(), false, lo, hi)
    } else if s[0] == '-' {
        digits_value(s.drop_first(), true, lo, hi)
    } else {
        digits_value(s, false, lo, hi)
    }
}

pub proof fn lemma_digits_value_range(ds: Seq<char>, neg: bool, lo: int, hi: int)
    requires
        lo <= 0 <= hi,
    ensures
        digits_value(ds, neg, lo, hi) matches Ok(v) ==> lo <= v <= hi && (neg ==> v <= 0) && (!neg
            ==> v >= 0),
    decreases ds.len(),
{
    if ds.len() > 0 {
        lemma_digits_value_range(ds.drop_last(), neg, lo, hi);
    }
}

/// Reads digits `s[from..]` as `digits_value` does.
fn digits_exec(s: &Vec<char>, from: usize, neg: bool, lo: i64, hi: i64) -> (r: Result<i64, IntErr>)
    requires
        from <= s@.len(),
        -0x1_0000_0000 <= lo <= 0 <= hi <= 0x1_0000_0000,
    ensures
        match r {
            Ok(v) => digits_value(s@.subrange(from as int, s@.len() as int), neg, lo as int, hi as int)
                == Ok::<int, IntErr>(v as int),
            Err(e) => digits_value(s@.subrange(from as int, s@.len() as int), neg, lo as int, hi as int)
                == Err::<int, IntErr>(e),
        },
{
    let mut acc: i64 = 0;
    let mut i: usize = from;
    while i < s.len()
        invariant
            from <= i <= s@.len(),
            -0x1_0000_0000 <= lo <= 0 <= hi <= 0x1_0000_0000,
            digits_value(s@.subrange(from as int, i as int), neg, lo as int, hi as int) == Ok::<
                int,
                IntErr,
            >(acc as int),
            lo <= acc <= hi,
            neg ==> acc <= 0,
            !neg ==> acc >= 0,
        decreases s@.len() - i,
    {
        let ghost sub1 = s@.subrange(from as int, i as int + 1);
        assert(sub1.drop_last() == s@.subrange(from as int, i as int));
        assert(sub1.last() == s@[i as int]);
        let c = s[i];
        if !('0' <= c && c <= '9') {
            proof {
                lemma_digits_stop(s@, from as int, i as int + 1, neg, lo as int, hi as int);
            }
            return Err(IntErr::InvalidDigit);
        }
        let d = (c as u32 - '0' as u32) as i64;
        if neg {
            if acc * 10 - d < lo {
                proof {
                    lemma_digits_stop(s@, from as int, i as int + 1, neg, lo as int, hi as int);
                }
                return Err(IntErr::NegOverflow);
            }
            acc = acc * 10 - d;
        } else {
            if acc * 10 + d > hi {
                proof {
                    lemma_digits_stop(s@, from as int, i as int + 1, neg, lo as int, hi as int);
                }
                return Err(IntErr::PosOverflow);
            }
            acc = acc * 10 + d;
        }
        i = i + 1;
    }
    assert(s@.subrange(from as int, i as int) == s@.subrange(from as int, s@.len() as int));
    Ok(acc)
}

/// Once a prefix of the digits fails, the whole run fails the same way.
pub proof fn lemma_digits_stop(s: Seq<char>, from: int, k: int, neg: bool, lo: int, hi: int)
    requires
        0 <= from <= k <= s.len(),
        digits_value(s.subrange(from, k), neg, lo, hi) is Err,
    ensures
        digits_value(s.subrange(from, s.len() as int), neg, lo, hi) == digits_value(
            s.subrange(from, k),
            neg,
            lo,
            hi,
        ),
    decreases s.len() - k,
{
    if k < s.len() {
        let t = s.subrange(from, k + 1);
        assert(t.drop_last() == s.subrange(from, k));
        lemma_digits_stop(s, from, k + 1, neg, lo, hi);
    }
}

/// `str::parse` of an integer in `[lo, hi]`.
pub fn parse_int_exec(s: &Vec<char>, lo: i64, hi: i64) -> (r: Result<i64, IntErr>)
    requires
        -0x1_0000_0000 <= lo <= 0 <= hi <= 0x1_0000_0000,
    ensures
        match r {
            Ok(v) => parse_int(s@, lo as int, hi as int) == Ok::<int, IntErr>(v as int),
            Err(e) => parse_int(s@, lo as int, hi as int) == Err::<int, IntErr>(e),
        },
{
    let n = s.len();
    if n == 0 {
        return Err(IntErr::Empty);
    }
    let c = s[0];
    if n == 1 && (c == '+' || c == '-') {
        return Err(IntErr::InvalidDigit);
    }
    assert(s@.drop_first() == s@.subrange(1, n as int));
    assert(s@ == s@.subrange(0, n as int));
    if c == '+' {
        digits_exec(s, 1, false, lo, hi)
    } else if c == '-' {
        digits_exec(s, 1, true, lo, hi)
    } else {
        digits_exec(s, 0, false, lo, hi)
    }
}

/// A parsed integer lies in the range it was read for.
pub proof fn lemma_parse_int_range(s: Seq<char>, lo: int, hi: int)
    requires
        lo <= 0 <= hi,
    ensures
        parse_int(s, lo, hi) matches Ok(v) ==> lo <= v <= hi,
{
    if s.len() > 0 {
        lemma_digits_value_range(s.drop_first(), false, lo, hi);
        lemma_digits_value_range(s.drop_first(), true, lo, hi);
        lemma_digits_value_range(s, false, lo, hi);
    }
}

/// `ParseIntError`'s message for each kind.
pub open spec fn int_err_text(e: IntErr) -> Seq<char> {
    match e {
        IntErr::Empty => "cannot parse integer from empty string"@,
        IntErr::InvalidDigit => "invalid digit found in string"@,
        IntErr::PosOverflow => "number too large to fit in target type"@,
        IntErr::NegOverflow => "number too small to fit in target type"@,
    }
}

/// Equality of two character sequences.
pub fn chars_eq(a: &Vec<char>, b: &Vec<char>) -> (r: bool)
    ensures
        r == (a@ == b@),
{
    if a.len() != b.len() {
        return false;
    }
    let mut i: usize = 0;
    while i < a.len()
        invariant
            a@.len() == b@.len(),
            i <= a@.len(),
            forall|j: int| 0 <= j < i ==> a@[j] == b@[j],
        decreases a@.len() - i,
    {
        if a[i] != b[i] {
            return false;
        }
        i = i + 1;
    }
    assert(a@ =~= b@);
    true
}

} // verus!
