//! Building text as a sequence of characters: decimal numbers, fixed-point
//! numbers, literal pieces and XML-escaped text.

use vstd::prelude::*;
use crate::binary64::{Dbl, p10, round_scaled, to_fixed};

verus! {

/// The decimal digit for `d < 10`.
pub open spec fn digit(d: nat) -> char {
    if d == 0 {
        '0'
    } else if d == 1 {
        '1'
    } else if d == 2 {
        '2'
    } else if d == 3 {
        '3'
    } else if d == 4 {
        '4'
    } else if d == 5 {
        '5'
    } else if d == 6 {
        '6'
    } else if d == 7 {
        '7'
    } else if d == 8 {
        '8'
    } else {
        '9'
    }
}

/// Decimal representation of `n`, without leading zeros (`"0"` for zero).
pub open spec fn dec(n: nat) -> Seq<char>
    decreases n,
{
    if n < 10 {
        seq![digit(n)]
    } else {
        dec(n / 10) + seq![digit(n % 10)]
    }
}

/// The low `w` decimal digits of `v`, zero-padded.
pub open spec fn dec_width(v: nat, w: nat) -> Seq<char>
    decreases w,
{
    if w == 0 {
        seq![]
    } else {
        dec_width(v / 10, (w - 1) as nat) + seq![digit(v % 10)]
    }
}

/// The integer `q` read as `q / 10^p`, printed with `p` digits after the point.
pub open spec fn fixed(q: nat, p: nat) -> Seq<char> {
    if p == 0 {
        dec(q)
    } else {
        dec(q / p10(p)) + seq!['.'] + dec_width(q % p10(p), p)
    }
}

/// `format!("{:.p$}", x)` for a non-negative value.
#[verifier::opaque]
pub open spec fn fmt_dbl(x: Dbl, p: nat) -> Seq<char> {
    fixed(round_scaled(x, p), p)
}

/// Display of a signed integer.
pub open spec fn signed_dec(v: int) -> Seq<char> {
    if v < 0 {
        seq!['-'] + dec((-v) as nat)
    } else {
        dec(v as nat)
    }
}

/// XML escaping of one character: `&`, `<` and `>` become entities.
pub open spec fn esc_char(c: char) -> Seq<char> {
    if c == '&' {
        seq!['&', 'a', 'm', 'p', ';']
    } else if c == '<' {
        seq!['&', 'l', 't', ';']
    } else if c == '>' {
        seq!['&', 'g', 't', ';']
    } else {
        seq![c]
    }
}

/// XML escaping of a text.
pub open spec fn esc(t: Seq<char>) -> Seq<char>
    decreases t.len(),
{
    if t.len() == 0 {
        seq![]
    } else {
        esc(t.drop_last()) + esc_char(t.last())
    }
}

pub fn digit_exec(d: u128) -> (c: char)
    requires
        d < 10,
    ensures
        c == digit(d as nat),
{
    if d == 0 {
        '0'
    } else if d == 1 {
        '1'
    } else if d == 2 {
        '2'
    } else if d == 3 {
        '3'
    } else if d == 4 {
        '4'
    } else if d == 5 {
        '5'
    } else if d == 6 {
        '6'
    } else if d == 7 {
        '7'
    } else if d == 8 {
        '8'
    } else {
        '9'
    }
}

/// Appends the decimal representation of `n`.
pub fn push_dec(out: &mut Vec<char>, n: u128)
    ensures
        final(out)@ == old(out)@ + dec(n as nat),
    decreases n,
{
    if n >= 10 {
        push_dec(out, n / 10);
    }
    out.push(digit_exec(n % 10));
}

/// Appends the low `w` digits of `v`, zero-padded.
pub fn push_dec_width(out: &mut Vec<char>, v: u128, w: u32)
    ensures
        final(out)@ == old(out)@ + dec_width(v as nat, w as nat),
    decreases w,
{
    if w > 0 {
        push_dec_width(out, v / 10, w - 1);
        out.push(digit_exec(v % 10));
    }
}

/// Appends `q / 10^p` with `p` digits after the point.
pub fn push_fixed(out: &mut Vec<char>, q: u128, p: u32)
    requires
        p <= 3,
    ensures
        final(out)@ == old(out)@ + fixed(q as nat, p as nat),
{
    proof {
        reveal_with_fuel(p10, 4);
    }
    if p == 0 {
        push_dec(out, q);
    } else {
        let pt: u128 = if p == 1 {
            10
        } else if p == 2 {
            100
        } else {
            1000
        };
        push_dec(out, q / pt);
        out.push('.');
        push_dec_width(out, q % pt, p);
    }
}

/// Appends `format!("{:.p$}", x)`.
pub fn push_dbl(out: &mut Vec<char>, x: Dbl, p: u32)
    requires
        x.wf(),
        x.e <= 60,
        p <= 3,
    ensures
        final(out)@ == old(out)@ + fmt_dbl(x, p as nat),
{
    let q = to_fixed(x, p);
    push_fixed(out, q, p);
    proof {
        reveal(fmt_dbl);
    }
}

/// Appends the display of a signed integer.
pub fn push_i64(out: &mut Vec<char>, v: i64)
    requires
        v > i64::MIN,
    ensures
        final(out)@ == old(out)@ + signed_dec(v as int),
{
    if v < 0 {
        out.push('-');
        push_dec(out, (0 - v) as u128);
    } else {
        push_dec(out, v as u128);
    }
}

/// Appends every character of `s`.
pub fn push_str(out: &mut Vec<char>, s: &str)
    ensures
        final(out)@ == old(out)@ + s@,
{
    let n = s.unicode_len();
    let ghost start = out@;
    let mut i: usize = 0;
    while i < n
        invariant
            n == s@.len(),
            i <= n,
            out@ == start + s@.subrange(0, i as int),
        decreases n - i,
    {
        let c = s.get_char(i);
        out.push(c);
        i = i + 1;
        assert(s@.subrange(0, i as int) == s@.subrange(0, (i - 1) as int).push(c));
    }
    assert(s@.subrange(0, n as int) == s@);
}

/// Appends `t` with `&`, `<` and `>` escaped.
pub fn push_esc(out: &mut Vec<char>, t: &str)
    ensures
        final(out)@ == old(out)@ + esc(t@),
{
    let n = t.unicode_len();
    let ghost start = out@;
    let mut i: usize = 0;
    while i < n
        invariant
            n == t@.len(),
            i <= n,
            out@ == start + esc(t@.subrange(0, i as int)),
        decreases n - i,
    {
        let c = t.get_char(i);
        let ghost before = out@;
        if c == '&' {
            out.push('&');
            out.push('a');
            out.push('m');
            out.push('p');
            out.push(';');
        } else if c == '<' {
            out.push('&');
            out.push('l');
            out.push('t');
            out.push(';');
        } else if c == '>' {
            out.push('&');
            out.push('g');
            out.push('t');
            out.push(';');
        } else {
            out.push(c);
        }
        assert(out@ == before + esc_char(c));
        i = i + 1;
        let ghost pre = t@.subrange(0, i as int);
        assert(pre.drop_last() == t@.subrange(0, (i - 1) as int));
        assert(pre.last() == c);
    }
    assert(t@.subrange(0, n as int) == t@);
}

/// Collects characters into a `String` with std's `Iterator::collect`
/// (`FromIterator<char> for String`, which appends each character in turn).
/// Trusted: the contract claims the string holds exactly `v`'s characters,
/// in order.
#[verifier::external_body]
pub(crate) fn string_from_chars(v: &Vec<char>) -> (s: String)
    ensures
        s@ == v@,
{
    v.iter().collect()
}

/// Escaped text holds no markup: no `<` and no `>` survive escaping.
pub proof fn lemma_esc_no_markup(t: Seq<char>)
    ensures
        forall|i: int| 0 <= i < esc(t).len() ==> #[trigger] esc(t)[i] != '<' && esc(t)[i] != '>',
    decreases t.len(),
{
    if t.len() > 0 {
        let pre = esc(t.drop_last());
        let tail = esc_char(t.last());
        lemma_esc_no_markup(t.drop_last());
        assert(esc(t) == pre + tail);
        assert forall|i: int| 0 <= i < esc(t).len() implies #[trigger] esc(t)[i] != '<' && esc(t)[i]
            != '>' by {
            if i >= pre.len() {
                assert(esc(t)[i] == tail[i - pre.len()]);
            } else {
                assert(esc(t)[i] == pre[i]);
            }
        }
    }
}

/// `&amp;`, `&lt;`, `&gt;`.
pub open spec fn ent_amp() -> Seq<char> {
    seq!['&', 'a', 'm', 'p', ';']
}

pub open spec fn ent_lt() -> Seq<char> {
    seq!['&', 'l', 't', ';']
}

pub open spec fn ent_gt() -> Seq<char> {
    seq!['&', 'g', 't', ';']
}

/// XML unescaping, left to right: each `&amp;`, `&lt;` or `&gt;` becomes
/// its character, everything else is kept.
pub open spec fn unesc(s: Seq<char>) -> Seq<char>
    decreases s.len(),
{
    if s.len() == 0 {
        seq![]
    } else if s.len() >= 5 && s.subrange(0, 5) == ent_amp() {
        seq!['&'] + unesc(s.subrange(5, s.len() as int))
    } else if s.len() >= 4 && s.subrange(0, 4) == ent_lt() {
        seq!['<'] + unesc(s.subrange(4, s.len() as int))
    } else if s.len() >= 4 && s.subrange(0, 4) == ent_gt() {
        seq!['>'] + unesc(s.subrange(4, s.len() as int))
    } else {
        seq![s[0]] + unesc(s.subrange(1, s.len() as int))
    }
}

/// Escaping a concatenation escapes each part.
pub proof fn lemma_esc_concat(a: Seq<char>, b: Seq<char>)
    ensures
        esc(a + b) == esc(a) + esc(b),
    decreases b.len(),
{
    if b.len() == 0 {
        assert(a + b =~= a);
        assert(esc(a) + esc(b) =~= esc(a));
    } else {
        let b1 = b.drop_last();
        lemma_esc_concat(a, b1);
        assert((a + b).drop_last() =~= a + b1);
        assert((a + b).last() == b.last());
        assert(esc(a) + esc(b) =~= esc(a) + esc(b1) + esc_char(b.last()));
    }
}

/// Unescaping undoes escaping: `unesc(esc(t)) == t`.
pub proof fn lemma_unesc_esc(t: Seq<char>)
    ensures
        unesc(esc(t)) == t,
    decreases t.len(),
{
    if t.len() > 0 {
        let c = t[0];
        let rest = t.subrange(1, t.len() as int);
        lemma_unesc_esc(rest);
        assert(seq![c] + rest =~= t);
        lemma_esc_concat(seq![c], rest);
        assert(seq![c].drop_last() =~= Seq::<char>::empty());
        assert(seq![c].last() == c);
        assert(esc(Seq::<char>::empty()) == Seq::<char>::empty());
        assert(esc(seq![c]) == esc(Seq::<char>::empty()) + esc_char(c));
        assert(esc(seq![c]) =~= esc_char(c));
        let e = esc_char(c);
        let x = esc(rest);
        let s = e + x;
        assert(esc(t) == s);
        if c == '&' {
            assert(s.subrange(0, 5) =~= ent_amp());
            assert(s.subrange(5, s.len() as int) =~= x);
        } else if c == '<' {
            if s.len() >= 5 {
                assert(s.subrange(0, 5)[1] == 'l');
            }
            assert(s.subrange(0, 4) =~= ent_lt());
            assert(s.subrange(4, s.len() as int) =~= x);
        } else if c == '>' {
            if s.len() >= 5 {
                assert(s.subrange(0, 5)[1] == 'g');
            }
            assert(s.subrange(0, 4)[1] == 'g');
            assert(s.subrange(0, 4) =~= ent_gt());
            assert(s.subrange(4, s.len() as int) =~= x);
        } else {
            assert(s[0] == c);
            if s.len() >= 5 {
                assert(s.subrange(0, 5)[0] == c);
            }
            if s.len() >= 4 {
                assert(s.subrange(0, 4)[0] == c);
            }
            assert(s.subrange(1, s.len() as int) =~= x);
        }
        assert(unesc(s) =~= t);
    }
}

/// Every `&` in escaped text begins an entity: `&amp;`, `&lt;` or `&gt;`.
pub proof fn lemma_esc_amp_entities(t: Seq<char>)
    ensures
        forall|i: int|
            0 <= i < esc(t).len() && #[trigger] esc(t)[i] == '&' ==> (i + 5 <= esc(t).len()
                && esc(t).subrange(i, i + 5) == ent_amp()) || (i + 4 <= esc(t).len() && (esc(
                t,
            ).subrange(i, i + 4) == ent_lt() || esc(t).subrange(i, i + 4) == ent_gt())),
    decreases t.len(),
{
    if t.len() > 0 {
        let pre = esc(t.drop_last());
        let tail = esc_char(t.last());
        let s = esc(t);
        lemma_esc_amp_entities(t.drop_last());
        assert(s == pre + tail);
        assert forall|i: int|
            0 <= i < s.len() && #[trigger] s[i] == '&' implies (i + 5 <= s.len() && s.subrange(
            i,
            i + 5,
        ) == ent_amp()) || (i + 4 <= s.len() && (s.subrange(i, i + 4) == ent_lt() || s.subrange(
            i,
            i + 4,
        ) == ent_gt())) by {
            if i < pre.len() {
                assert(s[i] == pre[i]);
                if i + 5 <= pre.len() && pre.subrange(i, i + 5) == ent_amp() {
                    assert(s.subrange(i, i + 5) =~= pre.subrange(i, i + 5));
                } else {
                    assert(s.subrange(i, i + 4) =~= pre.subrange(i, i + 4));
                }
            } else {
                let j = i - pre.len();
                assert(s[i] == tail[j]);
                assert(j == 0);
                let c = t.last();
                if c == '&' {
                    assert(s.subrange(i, i + 5) =~= ent_amp());
                } else if c == '<' {
                    assert(s.subrange(i, i + 4) =~= ent_lt());
                } else {
                    assert(s.subrange(i, i + 4) =~= ent_gt());
                }
            }
        }
    }
}

} // verus!
