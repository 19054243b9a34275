//! What blending does to a byte, for every opacity a binary64 can hold in
//! `[0, 1]`: the result lies between the old byte and the colour's, and
//! within half a unit (plus a rounding margin) of the exact mix
//! `dst * (1 - a) + src * a`.

use vstd::prelude::*;
use vstd::arithmetic::div_mod::*;
use crate::binary64::{
    Dbl, P52, P53, add_spec, blen, le, lemma_add_far, lemma_add_units_wide, lemma_div_range,
    lemma_int_exact, lemma_mul_int, lemma_mul_units, lemma_p2_add, lemma_p2_consts, lemma_p2_le,
    lemma_p2_lt, lemma_p2_pos, lemma_times_one, lemma_round_bits_e_lo, lemma_round_bits_exp,
    lemma_round_bits_nonzero, lemma_round_err, lemma_round_scale, lemma_round_wf, lemma_sub_far,
    lemma_units_exp_hi, mul_spec, p2, round_bits, scaled, sub_spec, units,
};
use crate::raster::{
    I32_MAX, Pt, blend, blend_px, f64_range, fill_pairs, fill_poly, fill_row, fill_rows, fill_span,
    image_ok, one, rows_end, rows_start, span_end, span_start,
};
use crate::sfloat::{
    Float, Rnd, clamp, fadd, fint, fle, fmul, fneg, fsub, int_mag, lemma_le_at, mk, to_int,
};

verus! {

/// The denominator of an opacity `a = m * 2^-k`: `2^k` (1 for zero).
pub open spec fn mix_den(a: Float) -> nat {
    p2((-a.mag.e) as nat)
}

/// The exact mix `dst * (1 - a) + src * a`, times `mix_den(a)`.
pub open spec fn mix_num(dst: u8, src: u8, a: Float) -> int {
    dst * mix_den(a) + (src - dst) * a.mag.m
}

/// The unrounded sum that `blend` rounds, spelt out over magnitudes.
spec fn mix_sum(dst: u8, src: u8, a: Float) -> Dbl {
    add_spec(
        mul_spec(round_bits(dst as nat, 0), sub_spec(one().mag, a.mag)),
        mul_spec(round_bits(src as nat, 0), a.mag),
    )
}

/// `blend` for an opacity in `[0, 1]`: its products and sum are not negative.
proof fn lemma_blend_shape(dst: u8, src: u8, a: Float)
    requires
        a.wf(),
        !a.neg,
        le(a.mag, one().mag),
    ensures
        blend(dst, src, a) == clamp(int_mag(mix_sum(dst, src, a), Rnd::Round) as int, 0, 255) as u8,
{
    let o = one().mag;
    let am = a.mag;
    let oma = fsub(one(), a);
    assert(oma == fadd(one(), fneg(a)));
    if am.is_zero() {
        assert(fneg(a) == Float { neg: false, mag: am });
        assert(add_spec(o, am) == o);
        assert(sub_spec(o, am) == o);
        assert(oma == mk(false, sub_spec(o, am)));
    } else {
        assert(fneg(a) == Float { neg: true, mag: am });
        assert(oma == mk(false, sub_spec(o, am)));
    }
    let fd = fint(dst as int);
    let fs = fint(src as int);
    assert(fd == mk(false, round_bits(dst as nat, 0)));
    assert(fs == mk(false, round_bits(src as nat, 0)));
    let t1 = fmul(fd, oma);
    let t2 = fmul(fs, a);
    assert(!t1.neg && t1.mag == mul_spec(round_bits(dst as nat, 0), sub_spec(o, am)));
    assert(!t2.neg && t2.mag == mul_spec(round_bits(src as nat, 0), am));
    let v = fadd(t1, t2);
    assert(!v.neg && v.mag == mix_sum(dst, src, a));
    assert(to_int(v, Rnd::Round) == int_mag(v.mag, Rnd::Round) as int);
}

/// A byte converted to binary64 reads back, rounded, as itself.
proof fn lemma_int_back(d: nat)
    requires
        d <= 255,
    ensures
        int_mag(round_bits(d, 0), Rnd::Round) == d,
{
    lemma_p2_consts();
    let t = round_bits(d, 0);
    if d == 0 {
        assert(t.m == 0 && t.e == 0);
        assert(int_mag(t, Rnd::Round) == t.m * p2(0));
        assert(t.m * p2(0) == 0);
    } else {
        lemma_int_exact(d);
        let kd = (53 - blen(d)) as nat;
        assert(t.e == -kd && t.m == d * p2(kd));
        if kd == 0 {
            assert(p2(0) == 1);
            assert(int_mag(t, Rnd::Round) == t.m * p2(0));
            assert(t.m * p2(0) == d * p2(0));
            lemma_times_one(d);
        } else {
            let pk = p2(kd);
            lemma_p2_pos(kd);
            assert(int_mag(t, Rnd::Round) == ((2 * t.m + pk) as nat) / (2 * pk));
            assert(d * (2 * pk) <= 2 * t.m + pk < (d + 1) * (2 * pk)) by (nonlinear_arith)
                requires
                    t.m == d * pk,
                    pk >= 1,
            ;
            lemma_div_range((2 * t.m + pk) as nat, 2 * pk, d, d + 1);
        }
    }
}

/// `d * 1`, for the magnitude of 1.
proof fn lemma_times_one_mag(d: nat)
    requires
        d <= 255,
    ensures
        mul_spec(round_bits(d, 0), one().mag) == round_bits(d, 0),
{
    lemma_p2_consts();
    lemma_mul_int(d, one().mag);
    lemma_round_scale(d, 0, 52);
}

/// `1 - a` for a nonzero `a <= 1` with an exponent of at least `-118`: it is
/// within `2^-45` of the exact difference, and its exponent lies in
/// `[-118, 0]`.
proof fn lemma_one_minus(a: Float)
    requires
        a.wf(),
        !a.mag.is_zero(),
        -118 <= a.mag.e,
        le(a.mag, one().mag),
    ensures
        a.mag.e <= -52,
        units(a.mag) <= p2(230),
        sub_spec(one().mag, a.mag).wf(),
        -118 <= sub_spec(one().mag, a.mag).e <= 0,
        units(sub_spec(one().mag, a.mag)) + units(a.mag) <= p2(230) + p2(185),
        p2(230) <= units(sub_spec(one().mag, a.mag)) + units(a.mag) + p2(185),
{
    lemma_p2_consts();
    let am = a.mag;
    let o = one().mag;
    let b = am.e as int;
    let pp = p2(230);
    lemma_le_at(am, o, -230);
    lemma_p2_add(52, 178);
    assert(units(o) == pp);
    assert(scaled(am, -230) == units(am));
    assert(scaled(o, -230) == units(o));
    if b > -52 {
        lemma_p2_le(179, (b + 230) as nat);
        lemma_p2_add(52, 179);
        lemma_p2_lt(230, 231);
        assert(am.m * p2((b + 230) as nat) >= P52 * p2(179)) by (nonlinear_arith)
            requires
                am.m >= P52,
                p2((b + 230) as nat) >= p2(179),
        ;
    }
    let w = (-52 - b) as nat;
    let wb = (b + 230) as nat;
    lemma_le_at(am, o, b);
    lemma_p2_add(w, wb);
    assert(w + wb == 178);
    assert(p2(0) == 1);
    let so = scaled(o, b);
    let sa = scaled(am, b);
    assert(sa == am.m) by {
        lemma_times_one(am.m as nat);
    }
    assert(so == P52 * p2(w));
    let n_o = (so - sa) as nat;
    assert(sub_spec(o, am) == round_bits(n_o, b));
    let ua = units(am);
    assert(ua == am.m * p2(wb));
    assert(n_o * p2(wb) == pp - ua) by (nonlinear_arith)
        requires
            n_o == P52 * p2(w) - am.m,
            ua == am.m * p2(wb),
            p2(178) == p2(w) * p2(wb),
            pp == P52 * p2(178),
    ;
    lemma_p2_lt(230, 239);
    lemma_round_err(n_o, b);
    lemma_p2_add(52, w);
    lemma_p2_lt(52 + w, 0x400);
    lemma_round_wf(n_o, b);
    let om = round_bits(n_o, b);
    if n_o > 0 {
        lemma_round_bits_nonzero(n_o, b);
        lemma_round_bits_e_lo(n_o, b);
        if w >= 2 {
            lemma_p2_le(2, w);
            assert(p2(2) == 4) by {
                reveal_with_fuel(p2, 3);
            }
            assert(P52 * p2(w) >= 4 * P52) by (nonlinear_arith)
                requires
                    p2(w) >= 4,
            ;
        }
        lemma_p2_lt(185, 230);
        lemma_p2_add(230, 1);
        assert(p2(1) == 2) by {
            reveal_with_fuel(p2, 2);
        }
        lemma_units_exp_hi(om, 231);
    } else {
        assert(om.m == 0 && om.e == 0);
    }
}

/// The sum `blend` rounds, for an opacity of exponent at least `-118`: within
/// `2^-36` of the exact mix `d * (1 - a) + s * a`, all counted in units of
/// `2^-230`.
proof fn lemma_mix_sum_near(dst: u8, src: u8, a: Float)
    requires
        a.wf(),
        !a.mag.is_zero(),
        -118 <= a.mag.e,
        le(a.mag, one().mag),
    ensures
        mix_sum(dst, src, a).wf(),
        mix_sum(dst, src, a).e >= -230,
        units(mix_sum(dst, src, a)) < p2(239),
        units(a.mag) <= p2(230),
        a.mag.e <= -52,
        ({
            let x = dst * p2(230) + src * units(a.mag) - dst * units(a.mag);
            &&& x - p2(194) <= units(mix_sum(dst, src, a))
            &&& units(mix_sum(dst, src, a)) <= x + p2(194)
        }),
{
    lemma_p2_consts();
    lemma_one_minus(a);
    let d = dst as nat;
    let s = src as nat;
    let am = a.mag;
    let om = sub_spec(one().mag, am);
    let pp = p2(230);
    let err = p2(185);
    let ua = units(am);
    let uo = units(om);
    lemma_p2_add(185, 9);
    assert(p2(9) == 512) by {
        reveal_with_fuel(p2, 10);
    }
    lemma_p2_add(230, 1);
    lemma_p2_add(230, 8);
    lemma_p2_add(230, 9);
    assert(p2(1) == 2) by {
        reveal_with_fuel(p2, 2);
    }
    assert(p2(8) == 256) by {
        reveal_with_fuel(p2, 9);
    }
    lemma_p2_lt(185, 230);
    lemma_p2_lt(194, 230);
    lemma_p2_pos(185);
    lemma_mul_units(d, om);
    lemma_mul_units(s, am);
    let m1 = mul_spec(round_bits(d, 0), om);
    let m2 = mul_spec(round_bits(s, 0), am);
    assert(d * uo <= 255 * uo) by (nonlinear_arith)
        requires
            d <= 255,
    ;
    assert(s * ua <= 255 * ua) by (nonlinear_arith)
        requires
            s <= 255,
    ;
    assert(units(m1) <= 255 * pp + 256 * err);
    assert(units(m2) <= 255 * pp + err);
    assert(units(m1) < p2(238));
    assert(units(m2) < p2(238));
    if !m1.is_zero() {
        lemma_units_exp_hi(m1, 238);
    }
    if !m2.is_zero() {
        lemma_units_exp_hi(m2, 238);
    }
    lemma_add_units_wide(m1, m2);
    let vm = add_spec(m1, m2);
    let x = d * pp + s * ua - d * ua;
    assert(x - p2(194) <= units(vm) <= x + p2(194)) by (nonlinear_arith)
        requires
            units(vm) <= units(m1) + units(m2) + err,
            units(m1) + units(m2) <= units(vm) + err,
            units(m1) <= d * uo + err,
            d * uo <= units(m1) + err,
            units(m2) <= s * ua + err,
            s * ua <= units(m2) + err,
            uo + ua <= pp + err,
            pp <= uo + ua + err,
            d <= 255,
            x == d * pp + s * ua - d * ua,
            err * 512 == p2(194),
            err >= 1,
    ;
    assert(units(vm) < p2(239));
}

/// Rounding a sum that lies within `2^-36` of an exact value between `lo`
/// and `hi` to the nearest integer: the integer lies between `lo` and `hi`,
/// and within half a unit plus `2^-36` of the exact value.
proof fn lemma_round_near(vm: Dbl, x: int, lo: nat, hi: nat)
    requires
        vm.wf(),
        vm.e >= -230,
        units(vm) < p2(239),
        x - p2(194) <= units(vm) <= x + p2(194),
        lo * p2(230) <= x <= hi * p2(230),
        hi <= 255,
    ensures
        lo <= int_mag(vm, Rnd::Round) <= hi,
        2 * (int_mag(vm, Rnd::Round) * p2(230) - x) <= p2(230) + 2 * p2(194),
        2 * (x - int_mag(vm, Rnd::Round) * p2(230)) <= p2(230) + 2 * p2(194),
{
    lemma_p2_consts();
    let pp = p2(230);
    lemma_p2_lt(194, 230);
    lemma_p2_add(194, 1);
    lemma_p2_lt(195, 230);
    lemma_p2_add(194, 36);
    lemma_p2_le(1, 36);
    assert(p2(1) == 2) by {
        reveal_with_fuel(p2, 2);
    }
    let r = int_mag(vm, Rnd::Round);
    if vm.is_zero() {
        assert(vm.e == 0);
        assert(r == vm.m * p2(0));
        assert(vm.m * p2(0) == 0);
        assert(units(vm) == 0) by (nonlinear_arith)
            requires
                vm.m == 0,
                units(vm) == vm.m * p2((vm.e + 230) as nat),
        ;
        assert(lo == 0) by (nonlinear_arith)
            requires
                lo * pp <= p2(194),
                p2(194) < pp,
        ;
    } else {
        lemma_p2_add(230, 9);
        lemma_units_exp_hi(vm, 239);
        let k = (-vm.e) as nat;
        let wv = (vm.e + 230) as nat;
        lemma_p2_add(k, wv);
        assert(k + wv == 230);
        let pk = p2(k);
        let pw = p2(wv);
        lemma_p2_pos(k);
        lemma_p2_pos(wv);
        let num = (2 * vm.m + pk) as nat;
        let den = (2 * pk) as nat;
        assert(r == num / den);
        assert(hi * pp <= 255 * pp) by (nonlinear_arith)
            requires
                hi <= 255,
        ;
        assert(lo * den <= num < (hi + 1) * den) by (nonlinear_arith)
            requires
                units(vm) == vm.m * pw,
                pp == pk * pw,
                lo * pp - p2(194) <= units(vm) <= hi * pp + p2(194),
                p2(194) * 2 < pp,
                num == 2 * vm.m + pk,
                den == 2 * pk,
                pk >= 1,
                pw >= 1,
        ;
        lemma_div_range(num, den, lo, hi + 1);
        lemma_fundamental_div_mod(num as int, den as int);
        lemma_mod_pos_bound(num as int, den as int);
        assert(r * den <= num < (r + 1) * den) by (nonlinear_arith)
            requires
                num == den * r + num % den,
                0 <= num % den < den,
        ;
        assert(2 * (r * pp - units(vm)) <= pp && 2 * (units(vm) - r * pp) < pp) by (
        nonlinear_arith)
            requires
                r * den <= num < (r + 1) * den,
                num == 2 * vm.m + pk,
                den == 2 * pk,
                units(vm) == vm.m * pw,
                pp == pk * pw,
                pw >= 1,
        ;
    }
}

/// With an opacity below `2^-66` the mix rounds back to `dst`: `1 - a` is
/// exactly 1, and `src * a` is too small to move `dst`.
proof fn lemma_blend_tiny(dst: u8, src: u8, a: Float)
    requires
        a.wf(),
        !a.mag.is_zero(),
        -0x800 <= a.mag.e < -118,
    ensures
        int_mag(mix_sum(dst, src, a), Rnd::Round) == dst,
{
    lemma_p2_consts();
    let d = dst as nat;
    let s = src as nat;
    let am = a.mag;
    let o = one().mag;
    let dd = (-52 - am.e) as nat;
    assert(p2(0) == 1);
    assert(scaled(am, am.e as int) == am.m) by {
        lemma_times_one(am.m as nat);
    }
    lemma_sub_far(o, am, dd);
    assert(sub_spec(o, am) == o);
    lemma_times_one_mag(d);
    let t1 = mul_spec(round_bits(d, 0), o);
    assert(t1 == round_bits(d, 0));
    lemma_int_back(d);
    lemma_mul_int(s, am);
    let t2 = mul_spec(round_bits(s, 0), am);
    let n2 = s * (am.m as nat);
    assert(t2 == round_bits(n2, am.e as int));
    assert(n2 < p2(61)) by {
        lemma_p2_add(8, 53);
        assert(p2(8) == 256) by {
            reveal_with_fuel(p2, 9);
        }
        assert(s * (am.m as nat) < 256 * P53) by (nonlinear_arith)
            requires
                s <= 255,
                am.m < P53,
        ;
    }
    lemma_round_bits_exp(n2, am.e as int, 61);
    lemma_p2_lt(61, 0x400);
    lemma_round_wf(n2, am.e as int);
    let v = mix_sum(dst, src, a);
    if d == 0 {
        assert(round_bits(0, 0).m == 0);
        assert(t1.m == 0);
        assert(v == t2);
        if n2 == 0 {
            assert(t2.m == 0 && t2.e == 0);
            assert(int_mag(t2, Rnd::Round) == t2.m * p2(0));
        } else {
            let k = (-t2.e) as nat;
            lemma_p2_le(110, k);
            lemma_p2_add(53, 57);
            lemma_p2_le(57, 110);
            lemma_p2_pos(57);
            let pk = p2(k);
            assert(2 * t2.m + pk < 2 * pk) by (nonlinear_arith)
                requires
                    t2.m < P53,
                    pk >= p2(110),
                    p2(110) == P53 * p2(57),
                    p2(57) >= 1,
            ;
            lemma_div_range((2 * t2.m + pk) as nat, 2 * pk, 0, 1);
        }
    } else {
        lemma_int_exact(d);
        let kd = (53 - blen(d)) as nat;
        assert(t1.e == -kd && t1.m == d * p2(kd));
        if n2 == 0 {
            assert(t2.m == 0);
            assert(v == t1);
        } else {
            lemma_round_bits_nonzero(n2, am.e as int);
            let gap = (t1.e - t2.e) as nat;
            assert(scaled(t2, t2.e as int) == t2.m) by {
                lemma_times_one(t2.m as nat);
            }
            lemma_add_far(t1, t2, gap);
            assert(v == t1);
        }
    }
}


/// `r` lies within half a unit plus `2^-36` of the exact mix.
pub open spec fn near_mix(r: int, dst: u8, src: u8, a: Float) -> bool {
    &&& 0x10_0000_0000 * (r * mix_den(a) - mix_num(dst, src, a)) <= 0x8_0000_0001 * mix_den(a)
    &&& 0x10_0000_0000 * (mix_num(dst, src, a) - r * mix_den(a)) <= 0x8_0000_0001 * mix_den(a)
}

/// Opacity 0: the mix rounds to `dst`, which is the exact mix.
proof fn lemma_mix_zero(dst: u8, src: u8, a: Float)
    requires
        a.wf(),
        a.mag.is_zero(),
    ensures
        int_mag(mix_sum(dst, src, a), Rnd::Round) == dst,
        near_mix(dst as int, dst, src, a),
{
    lemma_p2_consts();
    let am = a.mag;
    let o = one().mag;
    let d = dst as nat;
    let s = src as nat;
    let den = mix_den(a);
    let num = mix_num(dst, src, a);
    assert(am.e == 0);
    assert(sub_spec(o, am) == o);
    lemma_times_one_mag(d);
    lemma_int_back(d);
    let c = round_bits(s, 0);
    assert(c.m * am.m == 0) by (nonlinear_arith)
        requires
            am.m == 0,
    ;
    assert(mul_spec(c, am).m == 0);
    assert(mix_sum(dst, src, a) == round_bits(d, 0));
    assert(den == 1);
    assert(num == d) by (nonlinear_arith)
        requires
            num == d * den + (s - d) * am.m,
            den == 1,
            am.m == 0,
    ;
}

/// An opacity below `2^-66`: the mix rounds to `dst`, within `2^-36` of
/// the exact mix.
proof fn lemma_mix_tiny(dst: u8, src: u8, a: Float)
    requires
        a.wf(),
        !a.mag.is_zero(),
        -0x800 <= a.mag.e < -118,
    ensures
        int_mag(mix_sum(dst, src, a), Rnd::Round) == dst,
        near_mix(dst as int, dst, src, a),
{
    lemma_p2_consts();
    let am = a.mag;
    let d = dst as nat;
    let s = src as nat;
    let den = mix_den(a);
    let num = mix_num(dst, src, a);
    lemma_blend_tiny(dst, src, a);
    let k = (-am.e) as nat;
    lemma_p2_le(119, k);
    lemma_p2_add(53, 66);
    lemma_p2_le(44, 66);
    lemma_p2_add(35, 9);
    lemma_p2_pos(35);
    assert(p2(9) == 512) by {
        reveal_with_fuel(p2, 10);
    }
    assert(p2(35) == 0x8_0000_0000) by {
        lemma_p2_add(13, 22);
        assert(p2(13) == 8192) by {
            reveal_with_fuel(p2, 14);
        }
        lemma_p2_add(11, 11);
        assert(p2(11) == 2048) by {
            reveal_with_fuel(p2, 12);
        }
    }
    let r = d as int;
    assert(0x10_0000_0000 * (r * den - num) <= 0x8_0000_0001 * den && 0x10_0000_0000 * (num - r
        * den) <= 0x8_0000_0001 * den) by (nonlinear_arith)
        requires
            r == d,
            num == d * den + (s - d) * am.m,
            d <= 255,
            s <= 255,
            am.m < P53,
            den >= p2(119),
            p2(119) == P53 * p2(66),
            p2(66) >= p2(44),
            p2(44) == p2(35) * 512,
            p2(35) == 0x8_0000_0000,
    ;
}

/// An opacity of at least `2^-66`: the mix rounds into `[lo, hi]`, within
/// `2^-36` of the exact mix; opacity 1 gives `src`.
proof fn lemma_mix_general(dst: u8, src: u8, a: Float)
    requires
        a.wf(),
        !a.mag.is_zero(),
        -118 <= a.mag.e,
        le(a.mag, one().mag),
    ensures
        ({
            let r = int_mag(mix_sum(dst, src, a), Rnd::Round);
            &&& (if dst <= src {
                dst
            } else {
                src
            }) <= r <= (if dst <= src {
                src
            } else {
                dst
            })
            &&& near_mix(r as int, dst, src, a)
            &&& a == one() ==> r == src
        }),
{
    lemma_p2_consts();
    let am = a.mag;
    let d = dst as nat;
    let s = src as nat;
    let lo: nat = if d <= s {
        d
    } else {
        s
    };
    let hi: nat = if d <= s {
        s
    } else {
        d
    };
    let v = mix_sum(dst, src, a);
    let r = int_mag(v, Rnd::Round);
    let den = mix_den(a);
    let num = mix_num(dst, src, a);
    lemma_mix_sum_near(dst, src, a);
    let pp = p2(230);
    let ua = units(am);
    let x = d * pp + s * ua - d * ua;
    assert(lo * pp <= x <= hi * pp) by (nonlinear_arith)
        requires
            x == d * pp + s * ua - d * ua,
            0 <= ua <= pp,
            lo == (if d <= s {
                d
            } else {
                s
            }),
            hi == (if d <= s {
                s
            } else {
                d
            }),
    ;
    lemma_round_near(v, x, lo, hi);
    let k = (-am.e) as nat;
    let wq = (am.e + 230) as nat;
    lemma_p2_add(k, wq);
    assert(k + wq == 230);
    let q = p2(wq);
    lemma_p2_pos(wq);
    assert(den == p2(k));
    assert(ua == am.m * q);
    assert(x == num * q) by (nonlinear_arith)
        requires
            x == d * pp + s * ua - d * ua,
            num == d * den + (s - d) * am.m,
            ua == am.m * q,
            pp == den * q,
    ;
    lemma_p2_add(194, 36);
    assert(p2(36) == 0x10_0000_0000) by {
        lemma_p2_add(18, 18);
        assert(p2(18) == 0x4_0000) by {
            reveal_with_fuel(p2, 19);
        }
    }
    let lhs1 = 0x10_0000_0000 * (r * den - num);
    let lhs2 = 0x10_0000_0000 * (num - r * den);
    let rhs = 0x8_0000_0001 * den;
    assert(q * lhs1 <= q * rhs && q * lhs2 <= q * rhs) by (nonlinear_arith)
        requires
            2 * (r * pp - x) <= pp + 2 * p2(194),
            2 * (x - r * pp) <= pp + 2 * p2(194),
            x == num * q,
            pp == den * q,
            p2(194) * 0x10_0000_0000 == pp,
            lhs1 == 0x10_0000_0000 * (r * den - num),
            lhs2 == 0x10_0000_0000 * (num - r * den),
            rhs == 0x8_0000_0001 * den,
    ;
    assert(lhs1 <= rhs && lhs2 <= rhs) by (nonlinear_arith)
        requires
            q * lhs1 <= q * rhs,
            q * lhs2 <= q * rhs,
            q >= 1,
    ;
    if a == one() {
        assert(k == 52);
        assert(den == P52);
        assert(r == s) by (nonlinear_arith)
            requires
                0x10_0000_0000 * (r * den - num) <= 0x8_0000_0001 * den,
                0x10_0000_0000 * (num - r * den) <= 0x8_0000_0001 * den,
                num == d * den + (s - d) * den,
                den > 0,
        ;
    }
}

/// Blending with any binary64 opacity `a` in `[0, 1]` moves a byte toward
/// the colour's and never past it, and lands within half a unit plus
/// `2^-36` of the exact mix `dst * (1 - a) + src * a` (that is
/// `mix_num / mix_den`); opacity 0 keeps `dst` and opacity 1 gives `src`.
pub proof fn lemma_blend_between(dst: u8, src: u8, a: Float)
    requires
        unit_opacity(a),
    ensures
        (if dst <= src {
            dst
        } else {
            src
        }) <= blend(dst, src, a) <= (if dst <= src {
            src
        } else {
            dst
        }),
        near_mix(blend(dst, src, a) as int, dst, src, a),
        a.mag.is_zero() ==> blend(dst, src, a) == dst,
        a == one() ==> blend(dst, src, a) == src,
{
    lemma_blend_shape(dst, src, a);
    let r = int_mag(mix_sum(dst, src, a), Rnd::Round);
    if a.mag.is_zero() {
        lemma_mix_zero(dst, src, a);
    } else if a.mag.e < -118 {
        lemma_mix_tiny(dst, src, a);
    } else {
        lemma_mix_general(dst, src, a);
    }
    assert(0 <= r <= 255);
    assert(blend(dst, src, a) == r);
}


/// The channel of `col` that byte `i` of an RGB buffer holds.
pub open spec fn chan(col: (u8, u8, u8), i: int) -> u8 {
    if i % 3 == 0 {
        col.0
    } else if i % 3 == 1 {
        col.1
    } else {
        col.2
    }
}

/// `n` lies between `o` and `c`.
pub open spec fn between(o: u8, n: u8, c: u8) -> bool {
    (o <= n && n <= c) || (c <= n && n <= o)
}

/// `nb` is `ob` with every byte moved toward its channel of `col` and never
/// past it, and with only the bytes `lo .. hi` changed.
pub open spec fn moved_toward(ob: Seq<u8>, nb: Seq<u8>, col: (u8, u8, u8), lo: int, hi: int) -> bool {
    &&& nb.len() == ob.len()
    &&& forall|i: int| 0 <= i < ob.len() ==> between(ob[i], #[trigger] nb[i], chan(col, i))
    &&& forall|i: int| 0 <= i < ob.len() && !(lo <= i < hi) ==> #[trigger] nb[i] == ob[i]
}

/// An opacity in `[0, 1]` that a binary64 can hold.
pub open spec fn unit_opacity(a: Float) -> bool {
    &&& f64_range(a)
    &&& !a.neg
    &&& fle(a, one())
}

proof fn lemma_moved_refl(b: Seq<u8>, col: (u8, u8, u8), lo: int, hi: int)
    ensures
        moved_toward(b, b, col, lo, hi),
{
}

proof fn lemma_moved_trans(
    b0: Seq<u8>,
    b1: Seq<u8>,
    b2: Seq<u8>,
    col: (u8, u8, u8),
    lo: int,
    hi: int,
)
    requires
        moved_toward(b0, b1, col, lo, hi),
        moved_toward(b1, b2, col, lo, hi),
    ensures
        moved_toward(b0, b2, col, lo, hi),
{
    assert forall|i: int| 0 <= i < b0.len() implies between(b0[i], #[trigger] b2[i], chan(col, i)) by {
        assert(between(b0[i], b1[i], chan(col, i)));
        assert(between(b1[i], b2[i], chan(col, i)));
    }
    assert forall|i: int| 0 <= i < b0.len() && !(lo <= i < hi) implies #[trigger] b2[i] == b0[i] by {
        assert(b1[i] == b0[i]);
    }
}

proof fn lemma_moved_widen(
    b0: Seq<u8>,
    b1: Seq<u8>,
    col: (u8, u8, u8),
    lo: int,
    hi: int,
    lo2: int,
    hi2: int,
)
    requires
        moved_toward(b0, b1, col, lo, hi),
        lo2 <= lo,
        hi <= hi2,
    ensures
        moved_toward(b0, b1, col, lo2, hi2),
{
    assert forall|i: int| 0 <= i < b0.len() && !(lo2 <= i < hi2) implies #[trigger] b1[i] == b0[i] by {
        assert(!(lo <= i < hi));
    }
}

/// Blending one pixel moves its three bytes toward the colour.
proof fn lemma_blend_px_moves(buf: Seq<u8>, i: int, col: (u8, u8, u8), a: Float)
    requires
        0 <= i,
        i + 2 < buf.len(),
        i % 3 == 0,
        unit_opacity(a),
    ensures
        moved_toward(buf, blend_px(buf, i, col, a), col, i, i + 3),
{
    let nb = blend_px(buf, i, col, a);
    lemma_blend_between(buf[i], col.0, a);
    lemma_blend_between(buf[i + 1], col.1, a);
    lemma_blend_between(buf[i + 2], col.2, a);
    assert((i + 1) % 3 == 1 && (i + 2) % 3 == 2);
    assert forall|j: int| 0 <= j < buf.len() implies between(buf[j], #[trigger] nb[j], chan(col, j)) by {
        if j == i {
        } else if j == i + 1 {
        } else if j == i + 2 {
        } else {
            assert(nb[j] == buf[j]);
        }
    }
}

/// A span of pixels `px .. xb` of row `py` changes only that row's bytes.
proof fn lemma_span_moves(
    buf: Seq<u8>,
    w: int,
    py: int,
    px: int,
    xb: int,
    col: (u8, u8, u8),
    a: Float,
)
    requires
        0 <= py,
        0 <= px,
        xb <= w,
        (py + 1) * w * 3 <= buf.len(),
        unit_opacity(a),
    ensures
        moved_toward(buf, fill_span(buf, w, py, px, xb, col, a), col, py * w * 3, (py + 1) * w * 3),
    decreases xb - px,
{
    if px < xb {
        let i = (py * w + px) * 3;
        assert(py * w * 3 <= i && i + 3 <= (py + 1) * w * 3) by (nonlinear_arith)
            requires
                i == (py * w + px) * 3,
                0 <= px < w,
                0 <= py,
        ;
        assert(i % 3 == 0) by (nonlinear_arith)
            requires
                i == (py * w + px) * 3,
                0 <= py,
                0 <= px,
                0 <= w,
        ;
        let b1 = blend_px(buf, i, col, a);
        lemma_blend_px_moves(buf, i, col, a);
        lemma_moved_widen(buf, b1, col, i, i + 3, py * w * 3, (py + 1) * w * 3);
        lemma_span_moves(b1, w, py, px + 1, xb, col, a);
        lemma_moved_trans(buf, b1, fill_span(b1, w, py, px + 1, xb, col, a), col, py * w * 3, (py
            + 1) * w * 3);
    }
}

/// The spans of one row change only that row's bytes.
proof fn lemma_pairs_moves(
    buf: Seq<u8>,
    w: int,
    py: int,
    xs: Seq<Float>,
    i: nat,
    col: (u8, u8, u8),
    a: Float,
)
    requires
        0 <= py,
        0 <= w < I32_MAX,
        (py + 1) * w * 3 <= buf.len(),
        unit_opacity(a),
    ensures
        moved_toward(buf, fill_pairs(buf, w, py, xs, i, col, a), col, py * w * 3, (py + 1) * w * 3),
    decreases xs.len() - i,
{
    if i + 1 < xs.len() {
        let b1 = fill_span(buf, w, py, span_start(xs[i as int]), span_end(xs[i + 1 as int], w), col, a);
        lemma_span_moves(buf, w, py, span_start(xs[i as int]), span_end(xs[i + 1 as int], w), col, a);
        lemma_pairs_moves(b1, w, py, xs, i + 2, col, a);
        lemma_moved_trans(buf, b1, fill_pairs(b1, w, py, xs, i + 2, col, a), col, py * w * 3, (py
            + 1) * w * 3);
    }
}

/// Rows `py .. yb` change only their own bytes.
proof fn lemma_rows_moves(
    buf: Seq<u8>,
    w: int,
    poly: Seq<Pt>,
    py: int,
    yb: int,
    col: (u8, u8, u8),
    a: Float,
)
    requires
        0 <= py,
        0 <= w < I32_MAX,
        yb * w * 3 <= buf.len(),
        unit_opacity(a),
    ensures
        moved_toward(buf, fill_rows(buf, w, poly, py, yb, col, a), col, py * w * 3, yb * w * 3),
    decreases yb - py,
{
    if py < yb {
        assert((py + 1) * w * 3 <= yb * w * 3) by (nonlinear_arith)
            requires
                py + 1 <= yb,
                0 <= w,
        ;
        assert(py * w * 3 <= (py + 1) * w * 3) by (nonlinear_arith)
            requires
                0 <= w,
        ;
        let b1 = fill_row(buf, w, poly, py, col, a);
        lemma_pairs_moves(buf, w, py, crate::raster::sorted(crate::raster::crossings(poly, crate::raster::row_y(py), poly.len())), 0, col, a);
        lemma_moved_widen(buf, b1, col, py * w * 3, (py + 1) * w * 3, py * w * 3, yb * w * 3);
        lemma_rows_moves(b1, w, poly, py + 1, yb, col, a);
        lemma_moved_widen(
            b1,
            fill_rows(b1, w, poly, py + 1, yb, col, a),
            col,
            (py + 1) * w * 3,
            yb * w * 3,
            py * w * 3,
            yb * w * 3,
        );
        lemma_moved_trans(buf, b1, fill_rows(b1, w, poly, py + 1, yb, col, a), col, py * w * 3, yb
            * w * 3);
    }
}

/// Filling a polygon into a `w` by `h` image with any binary64 opacity in
/// `[0, 1]`: only the bytes of rows `rows_start(poly) .. rows_end(poly, h)`
/// change (from the floor of the lowest vertex to the ceiling of the
/// highest, inside the image), each moving toward the colour's channel
/// without passing it; fewer than three vertices change nothing.
pub proof fn lemma_fill_between(
    buf: Seq<u8>,
    w: u32,
    h: u32,
    poly: Seq<Pt>,
    col: (u8, u8, u8),
    a: Float,
)
    requires
        image_ok(buf, w, h),
        unit_opacity(a),
    ensures
        poly.len() < 3 ==> fill_poly(buf, w as int, h as int, poly, col, a) == buf,
        moved_toward(
            buf,
            fill_poly(buf, w as int, h as int, poly, col, a),
            col,
            rows_start(poly) * w * 3,
            rows_end(poly, h as int) * w * 3,
        ),
{
    let ys = rows_start(poly);
    let ye = rows_end(poly, h as int);
    if poly.len() < 3 {
        lemma_moved_refl(buf, col, ys * w * 3, ye * w * 3);
    } else if ye <= 0 || w == 0 {
        assert(ye * w * 3 <= 0) by (nonlinear_arith)
            requires
                ye <= 0 || w == 0,
                w >= 0,
        ;
        assert(ys * w * 3 >= 0) by (nonlinear_arith)
            requires
                ys >= 0,
                w >= 0,
        ;
        let r = fill_rows(buf, w as int, poly, ys, ye, col, a);
        if ys < ye {
            lemma_rows_moves(buf, w as int, poly, ys, ye, col, a);
        } else {
            lemma_moved_refl(buf, col, ys * w * 3, ye * w * 3);
        }
    } else {
        assert(h >= 1);
        assert(ye <= h);
        assert(w * 3 <= w * h * 3) by (nonlinear_arith)
            requires
                h >= 1,
        ;
        assert(ye * w * 3 <= h * w * 3) by (nonlinear_arith)
            requires
                ye <= h,
                w >= 0,
        ;
        assert(h * w * 3 == w * h * 3) by (nonlinear_arith);
        lemma_rows_moves(buf, w as int, poly, ys, ye, col, a);
    }
}

} // verus!
