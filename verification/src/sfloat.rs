//! Signed binary64 values, with the operations the raster needs: the four
//! correctly rounded arithmetic operations, the square root, comparisons,
//! and conversion to integers by `floor`, `ceil` and `round`.
//!
//! A value is a sign and a magnitude (`binary64::Dbl`); zero carries no sign.
//! Exponents are unbounded in the model, so the operations here agree with
//! the hardware's `f64` on every value whose exponent stays inside the normal
//! range, which is where the raster's values live.

use vstd::prelude::*;
use vstd::arithmetic::div_mod::*;
use crate::binary64::{
    Dbl, P52, P53, add_exec, add_spec, blen, le, le_exec, lemma_blen_bounds, lemma_blen_unique,
    lemma_div_range, lemma_le_total, lemma_p2_add, lemma_p2_consts, lemma_p2_pos,
    lemma_round_bits_nonzero, mul_exec, mul_spec, p2, p2_exec, rne_up, round_bits,
    round_bits_exec, round_div, scaled, sub_exec, sub_spec, val_le,
};

verus! {

/// Correctly rounded quotient `x / y` of magnitudes, `y` nonzero.
pub open spec fn div_spec(x: Dbl, y: Dbl) -> Dbl {
    if x.is_zero() {
        Dbl { m: 0, e: 0 }
    } else {
        let q = round_div(x.m as nat, y.m as nat);
        Dbl { m: q.m, e: (q.e + x.e - y.e) as i64 }
    }
}

/// Correctly rounded quotient of two magnitudes.
pub fn div_exec(x: Dbl, y: Dbl) -> (r: Dbl)
    requires
        x.usable(),
        y.usable(),
        !y.is_zero(),
    ensures
        r == div_spec(x, y),
        r.wf(),
        r.is_zero() <==> x.is_zero(),
        !r.is_zero() ==> x.e - y.e - 53 <= r.e <= x.e - y.e + 1,
{
    if x.m == 0 {
        return Dbl { m: 0, e: 0 };
    }
    let a = x.m;
    let b = y.m;
    let ghost an = a as nat;
    let ghost bn = b as nat;
    proof {
        lemma_p2_consts();
        assert(p2(53) == 2 * p2(52));
        lemma_blen_unique(an, 53);
        lemma_blen_unique(bn, 53);
    }
    let j: u32 = if a >= b {
        52
    } else {
        53
    };
    let pj = p2_exec(j);
    proof {
        assert(an * p2(52) >= P52 * bn <==> an >= bn) by (nonlinear_arith)
            requires
                p2(52) == P52,
                P52 > 0,
        ;
        if j == 52 {
            assert(P52 * bn <= an * pj < P53 * bn) by (nonlinear_arith)
                requires
                    pj == P52,
                    P53 == 2 * P52,
                    bn <= an,
                    an < P53,
                    bn >= P52,
            ;
        } else {
            assert(P52 * bn <= an * pj < P53 * bn) by (nonlinear_arith)
                requires
                    pj == P53,
                    P53 == 2 * P52,
                    an < bn,
                    an >= P52,
                    bn < P53,
            ;
        }
        assert(an * pj < 0x4000_0000_0000_0000_0000_0000_0000u128) by (nonlinear_arith)
            requires
                an < P53,
                pj <= P53,
                P53 == 0x20_0000_0000_0000,
        ;
        lemma_div_range((an * pj) as nat, bn, P52 as nat, P53 as nat);
    }
    let t = a as u128 * pj;
    let q = t / b as u128;
    let rem = t % b as u128;
    let up = rem * 2 > b as u128 || (rem * 2 == b as u128 && q % 2 == 1);
    let q2 = if up {
        q + 1
    } else {
        q
    };
    proof {
        assert(up == rne_up(q as nat, rem as nat, bn));
    }
    if q2 == P53 as u128 {
        Dbl { m: P52, e: 1 - j as i64 + x.e - y.e }
    } else {
        Dbl { m: q2 as u64, e: 0 - j as i64 + x.e - y.e }
    }
}

/// Integer square root: the largest `q` with `q * q <= n`, digit pair by
/// digit pair.
pub open spec fn isqrt(n: nat) -> nat
    decreases n,
{
    if n == 0 {
        0
    } else {
        let r = 2 * isqrt(n / 4);
        if (r + 1) * (r + 1) <= n {
            r + 1
        } else {
            r
        }
    }
}

pub proof fn lemma_isqrt(n: nat)
    ensures
        isqrt(n) * isqrt(n) <= n < (isqrt(n) + 1) * (isqrt(n) + 1),
    decreases n,
{
    if n > 0 {
        lemma_isqrt(n / 4);
        let q = isqrt(n / 4);
        let r = 2 * q;
        let d = n / 4;
        lemma_fundamental_div_mod(n as int, 4);
        lemma_mod_pos_bound(n as int, 4);
        assert(r * r <= n && n < (r + 2) * (r + 2)) by (nonlinear_arith)
            requires
                q * q <= d,
                d < (q + 1) * (q + 1),
                r == 2 * q,
                4 * d <= n < 4 * d + 4,
        ;
        if (r + 1) * (r + 1) <= n {
            assert(isqrt(n) == r + 1);
            let s = r + 1;
            assert(s * s <= n < (s + 1) * (s + 1)) by (nonlinear_arith)
                requires
                    s == r + 1,
                    (r + 1) * (r + 1) <= n,
                    n < (r + 2) * (r + 2),
            ;
        } else {
            assert(isqrt(n) == r);
            assert(r * r <= n < (r + 1) * (r + 1));
        }
    } else {
        assert(isqrt(0) == 0);
        assert(0 * 0 <= n < (0 + 1) * (0 + 1)) by (nonlinear_arith)
            requires
                n == 0,
        ;
    }
}

/// `isqrt` on integers below `2^106`.
pub fn isqrt_exec(n: u128) -> (q: u128)
    requires
        n < 0x400_0000_0000_0000_0000_0000_0000,
    ensures
        q == isqrt(n as nat),
        q < 0x20_0000_0000_0000,
    decreases n,
{
    proof {
        lemma_isqrt(n as nat);
        let q = isqrt(n as nat);
        assert(q < 0x20_0000_0000_0000) by (nonlinear_arith)
            requires
                q * q <= n,
                n < 0x400_0000_0000_0000_0000_0000_0000,
        ;
    }
    if n == 0 {
        return 0;
    }
    let h = isqrt_exec(n / 4);
    let r = 2 * h;
    proof {
        assert((r + 1) * (r + 1) <= 0x4_0000_0000_0000_0000_0000_0000_0000) by (nonlinear_arith)
            requires
                r < 0x40_0000_0000_0000,
        ;
    }
    if (r + 1) * (r + 1) <= n {
        r + 1
    } else {
        r
    }
}

/// Correctly rounded square root of a magnitude.  With the exponent made
/// even, `sqrt(m * 2^k)` lies in `[2^52, 2^53)`; it rounds up exactly when
/// the remainder `n - q^2` passes `q` (a tie cannot happen).
pub open spec fn sqrt_spec(x: Dbl) -> Dbl {
    if x.is_zero() {
        Dbl { m: 0, e: 0 }
    } else {
        let k: nat = if (x.e - 52) % 2 == 0 {
            52
        } else {
            53
        };
        let n = (x.m * p2(k)) as nat;
        let q = isqrt(n);
        let up = n - q * q > q;
        crate::binary64::pack(
            if up {
                q + 1
            } else {
                q
            },
            (x.e - k) / 2,
        )
    }
}

/// Correctly rounded square root.
pub fn sqrt_exec(x: Dbl) -> (r: Dbl)
    requires
        x.usable(),
    ensures
        r == sqrt_spec(x),
        r.wf(),
        r.is_zero() <==> x.is_zero(),
        !r.is_zero() ==> (x.e - 53) / 2 <= r.e <= (x.e - 52) / 2 + 1,
{
    if x.m == 0 {
        return Dbl { m: 0, e: 0 };
    }
    let k: u32 = if (x.e - 52) % 2 == 0 {
        52
    } else {
        53
    };
    let pk = p2_exec(k);
    let ghost mn = x.m as nat;
    proof {
        lemma_p2_consts();
        assert(p2(53) == 2 * p2(52));
        assert(mn * pk < 0x400_0000_0000_0000_0000_0000_0000) by (nonlinear_arith)
            requires
                mn < P53,
                pk <= P53,
                P53 == 0x20_0000_0000_0000,
        ;
        assert(mn * pk >= 0x100_0000_0000_0000_0000_0000_0000) by (nonlinear_arith)
            requires
                mn >= P52,
                pk >= P52,
                P52 == 0x10_0000_0000_0000,
        ;
    }
    let n = x.m as u128 * pk;
    let q = isqrt_exec(n);
    proof {
        lemma_isqrt(n as nat);
        assert(q >= P52) by (nonlinear_arith)
            requires
                n < (q + 1) * (q + 1),
                n >= 0x100_0000_0000_0000_0000_0000_0000,
                P52 == 0x10_0000_0000_0000,
        ;
    }
    let rem = n - q * q;
    let q2 = if rem > q {
        q + 1
    } else {
        q
    };
    let d: i64 = x.e - k as i64;
    let half: i64 = if d >= 0 {
        (d as u64 / 2) as i64
    } else {
        0 - ((0 - d) as u64 / 2) as i64
    };
    proof {
        assert(d % 2 == 0);
        assert(half == d / 2);
    }
    if q2 == P53 as u128 {
        Dbl { m: P52, e: half + 1 }
    } else {
        Dbl { m: q2 as u64, e: half }
    }
}

/// A signed binary64 value: a sign and a magnitude.
#[derive(Clone, Copy)]
pub struct Float {
    pub neg: bool,
    pub mag: Dbl,
}

impl Float {
    /// A well-formed magnitude, and zero is never negative.
    pub open spec fn wf(self) -> bool {
        &&& self.mag.wf()
        &&& self.mag.is_zero() ==> !self.neg
    }

    /// Size of the binary exponent.
    pub open spec fn ex(self) -> int {
        if self.mag.e >= 0 {
            self.mag.e as int
        } else {
            -self.mag.e
        }
    }

    /// Well formed, with an exponent of size at most `k`.
    pub open spec fn within(self, k: int) -> bool {
        self.wf() && self.ex() <= k
    }
}

/// The exponent bound every operation accepts.
pub open spec fn ex_limit() -> int {
    0x1000_0000
}

/// A sign and a magnitude, zero made unsigned.
pub open spec fn mk(neg: bool, mag: Dbl) -> Float {
    Float { neg: neg && !mag.is_zero(), mag }
}

/// `-x`.
pub open spec fn fneg(x: Float) -> Float {
    mk(!x.neg, x.mag)
}

/// Correctly rounded `x + y`.
pub open spec fn fadd(x: Float, y: Float) -> Float {
    if x.neg == y.neg {
        mk(x.neg, add_spec(x.mag, y.mag))
    } else if le(y.mag, x.mag) {
        mk(x.neg, sub_spec(x.mag, y.mag))
    } else {
        mk(y.neg, sub_spec(y.mag, x.mag))
    }
}

/// Correctly rounded `x - y`.
pub open spec fn fsub(x: Float, y: Float) -> Float {
    fadd(x, fneg(y))
}

/// Correctly rounded `x * y`.
pub open spec fn fmul(x: Float, y: Float) -> Float {
    mk(x.neg != y.neg, mul_spec(x.mag, y.mag))
}

/// Correctly rounded `x / y` (`y` nonzero).
pub open spec fn fdiv(x: Float, y: Float) -> Float {
    mk(x.neg != y.neg, div_spec(x.mag, y.mag))
}

/// Correctly rounded square root of a value that is not negative.
pub open spec fn fsqrt(x: Float) -> Float {
    mk(false, sqrt_spec(x.mag))
}

/// `x <= y`.
pub open spec fn fle(x: Float, y: Float) -> bool {
    if x.neg && y.neg {
        le(y.mag, x.mag)
    } else if x.neg {
        true
    } else if y.neg {
        false
    } else {
        le(x.mag, y.mag)
    }
}

/// `x < y`.
pub open spec fn flt(x: Float, y: Float) -> bool {
    !fle(y, x)
}

/// `f64::max`.
pub open spec fn fmax(x: Float, y: Float) -> Float {
    if fle(x, y) {
        y
    } else {
        x
    }
}

/// `f64::min`.
pub open spec fn fmin(x: Float, y: Float) -> Float {
    if fle(x, y) {
        x
    } else {
        y
    }
}

/// The integer `n` as a binary64 value (`n as f64`).
pub open spec fn fint(n: int) -> Float {
    mk(
        n < 0,
        round_bits(
            (if n < 0 {
                -n
            } else {
                n
            }) as nat,
            0,
        ),
    )
}

/// Bound on the exponent of a result, from those of its operands.
pub open spec fn ex_after(x: Float, y: Float) -> int {
    2 * (if x.ex() >= y.ex() {
        x.ex()
    } else {
        y.ex()
    }) + 64
}

/// `n as f64` for an integer that converts exactly.
pub fn fint_exec(n: i64) -> (r: Float)
    requires
        -0x20_0000_0000_0000 < n < 0x20_0000_0000_0000,
    ensures
        r == fint(n as int),
        r.within(53),
{
    let a: u64 = if n < 0 {
        (0 - n) as u64
    } else {
        n as u64
    };
    proof {
        lemma_p2_consts();
        crate::binary64::lemma_round_bits_exp(a as nat, 0, 53);
    }
    let mag = round_bits_exec(a as u128, 0);
    Float { neg: n < 0 && mag.m != 0, mag }
}

pub fn fneg_exec(x: Float) -> (r: Float)
    requires
        x.wf(),
    ensures
        r == fneg(x),
        r.wf(),
        r.ex() == x.ex(),
{
    Float { neg: !x.neg && x.mag.m != 0, mag: x.mag }
}

pub fn fadd_exec(x: Float, y: Float) -> (r: Float)
    requires
        x.within(ex_limit()),
        y.within(ex_limit()),
    ensures
        r == fadd(x, y),
        r.within(ex_after(x, y)),
{
    if x.neg == y.neg {
        let m = add_exec(x.mag, y.mag);
        Float { neg: x.neg && m.m != 0, mag: m }
    } else if le_exec(y.mag, x.mag) {
        let m = sub_exec(x.mag, y.mag);
        Float { neg: x.neg && m.m != 0, mag: m }
    } else {
        proof {
            lemma_le_total(y.mag, x.mag);
        }
        let m = sub_exec(y.mag, x.mag);
        Float { neg: y.neg && m.m != 0, mag: m }
    }
}

pub fn fsub_exec(x: Float, y: Float) -> (r: Float)
    requires
        x.within(ex_limit()),
        y.within(ex_limit()),
    ensures
        r == fsub(x, y),
        r.within(ex_after(x, y)),
{
    let ny = fneg_exec(y);
    fadd_exec(x, ny)
}

pub fn fmul_exec(x: Float, y: Float) -> (r: Float)
    requires
        x.within(ex_limit()),
        y.within(ex_limit()),
    ensures
        r == fmul(x, y),
        r.within(ex_after(x, y)),
{
    let m = mul_exec(x.mag, y.mag);
    Float { neg: x.neg != y.neg && m.m != 0, mag: m }
}

pub fn fdiv_exec(x: Float, y: Float) -> (r: Float)
    requires
        x.within(ex_limit()),
        y.within(ex_limit()),
        !y.mag.is_zero(),
    ensures
        r == fdiv(x, y),
        r.within(ex_after(x, y)),
{
    let m = div_exec(x.mag, y.mag);
    Float { neg: x.neg != y.neg && m.m != 0, mag: m }
}

pub fn fsqrt_exec(x: Float) -> (r: Float)
    requires
        x.within(ex_limit()),
    ensures
        r == fsqrt(x),
        r.within(ex_after(x, x)),
{
    let m = sqrt_exec(x.mag);
    Float { neg: false, mag: m }
}

pub fn fle_exec(x: Float, y: Float) -> (b: bool)
    requires
        x.wf(),
        y.wf(),
    ensures
        b == fle(x, y),
{
    if x.neg && y.neg {
        le_exec(y.mag, x.mag)
    } else if x.neg {
        true
    } else if y.neg {
        false
    } else {
        le_exec(x.mag, y.mag)
    }
}

pub fn fmax_exec(x: Float, y: Float) -> (r: Float)
    requires
        x.wf(),
        y.wf(),
    ensures
        r == fmax(x, y),
{
    if fle_exec(x, y) {
        y
    } else {
        x
    }
}

pub fn fmin_exec(x: Float, y: Float) -> (r: Float)
    requires
        x.wf(),
        y.wf(),
    ensures
        r == fmin(x, y),
{
    if fle_exec(x, y) {
        x
    } else {
        y
    }
}

/// How a value becomes an integer: `floor`, `ceil`, or `round` (half away
/// from zero).
#[derive(Clone, Copy)]
pub enum Rnd {
    Floor,
    Ceil,
    Round,
}

/// The magnitude's integer part, rounded down, up, or to nearest with
/// halves up.
pub open spec fn int_mag(x: Dbl, r: Rnd) -> nat {
    if x.e >= 0 {
        (x.m * p2(x.e as nat)) as nat
    } else {
        let d = p2((-x.e) as nat);
        match r {
            Rnd::Floor => x.m as nat / d,
            Rnd::Ceil => ((x.m + d - 1) as nat) / d,
            Rnd::Round => ((2 * x.m + d) as nat) / (2 * d),
        }
    }
}

/// `x.floor()`, `x.ceil()` or `x.round()` as an integer.
pub open spec fn to_int(x: Float, r: Rnd) -> int {
    if x.neg {
        -int_mag(
            x.mag,
            match r {
                Rnd::Floor => Rnd::Ceil,
                Rnd::Ceil => Rnd::Floor,
                Rnd::Round => Rnd::Round,
            },
        )
    } else {
        int_mag(x.mag, r) as int
    }
}

/// `v` held inside `[lo, hi]`.
pub open spec fn clamp(v: int, lo: int, hi: int) -> int {
    if v < lo {
        lo
    } else if v > hi {
        hi
    } else {
        v
    }
}

/// `int_mag`, capped at `2^62`.
fn int_mag_capped(x: Dbl, r: Rnd) -> (n: u64)
    requires
        x.usable(),
    ensures
        n == (if int_mag(x, r) < 0x4000_0000_0000_0000 {
            int_mag(x, r)
        } else {
            0x4000_0000_0000_0000
        }),
{
    proof {
        lemma_p2_consts();
    }
    if x.e > 9 {
        proof {
            crate::binary64::lemma_p2_le(10, x.e as nat);
            assert(p2(10) == 1024) by {
                reveal_with_fuel(p2, 11);
            }
            let f = p2(x.e as nat);
            assert(x.m * f >= 0x4000_0000_0000_0000) by (nonlinear_arith)
                requires
                    x.m >= P52,
                    f >= 1024,
                    P52 == 0x10_0000_0000_0000,
            ;
        }
        return 0x4000_0000_0000_0000;
    }
    if x.e >= 0 {
        let f = p2_exec(x.e as u32);
        proof {
            crate::binary64::lemma_p2_le(x.e as nat, 9);
            assert(p2(9) == 512) by {
                reveal_with_fuel(p2, 10);
            }
            assert(x.m * f < 0x4000_0000_0000_0000) by (nonlinear_arith)
                requires
                    x.m < P53,
                    f <= 512,
                    P53 == 0x20_0000_0000_0000,
            ;
        }
        return (x.m as u128 * f) as u64;
    }
    let k = 0 - x.e;
    if k > 120 {
        proof {
            let d = p2(k as nat);
            crate::binary64::lemma_p2_le(120, k as nat);
            crate::binary64::lemma_p2_pos(k as nat);
            assert(2 * x.m + d < 2 * d);
            lemma_basic_div(x.m as int, d as int);
            lemma_basic_div((2 * x.m + d) as int, (2 * d) as int);
            if x.m > 0 {
                assert(1 * d <= x.m + d - 1 < 2 * d);
                lemma_div_range((x.m + d - 1) as nat, d, 1, 2);
            } else {
                lemma_basic_div((x.m + d - 1) as int, d as int);
            }
        }
        return match r {
            Rnd::Ceil => {
                if x.m > 0 {
                    1
                } else {
                    0
                }
            },
            _ => 0,
        };
    }
    let d = p2_exec(k as u32);
    proof {
        crate::binary64::lemma_p2_pos(k as nat);
        crate::binary64::lemma_p2_le(k as nat, 120);
    }
    let m = x.m as u128;
    let v: u128 = match r {
        Rnd::Floor => m / d,
        Rnd::Ceil => (m + d - 1) / d,
        Rnd::Round => (2 * m + d) / (2 * d),
    };
    proof {
        let c: nat = 0x4000_0000_0000_0000;
        match r {
            Rnd::Floor => {
                assert(m < c * d) by (nonlinear_arith)
                    requires
                        m < 0x20_0000_0000_0000,
                        d >= 1,
                        c == 0x4000_0000_0000_0000,
                ;
                lemma_div_range(m as nat, d as nat, 0, c);
            },
            Rnd::Ceil => {
                assert(m + d - 1 < c * d) by (nonlinear_arith)
                    requires
                        m < 0x20_0000_0000_0000,
                        d >= 1,
                        c == 0x4000_0000_0000_0000,
                ;
                lemma_div_range((m + d - 1) as nat, d as nat, 0, c);
            },
            Rnd::Round => {
                assert(2 * m + d < c * (2 * d)) by (nonlinear_arith)
                    requires
                        m < 0x20_0000_0000_0000,
                        d >= 1,
                        c == 0x4000_0000_0000_0000,
                ;
                lemma_div_range((2 * m + d) as nat, (2 * d) as nat, 0, c);
            },
        }
    }
    v as u64
}

/// `clamp(to_int(x, r), lo, hi)`: the integer `floor`, `ceil` or `round`
/// gives, held inside `[lo, hi]` the way a saturating `as` cast and
/// `max`/`min` against integer bounds hold it.
pub fn to_int_clamped(x: Float, r: Rnd, lo: i64, hi: i64) -> (v: i64)
    requires
        x.within(ex_limit()),
        -0x1000_0000_0000_0000 <= lo <= hi <= 0x1000_0000_0000_0000,
    ensures
        v == clamp(to_int(x, r), lo as int, hi as int),
{
    let mr = if x.neg {
        match r {
            Rnd::Floor => Rnd::Ceil,
            Rnd::Ceil => Rnd::Floor,
            Rnd::Round => Rnd::Round,
        }
    } else {
        r
    };
    let n = int_mag_capped(x.mag, mr);
    let s: i64 = if x.neg {
        0 - n as i64
    } else {
        n as i64
    };
    if s < lo {
        lo
    } else if s > hi {
        hi
    } else {
        s
    }
}

/// Comparing two magnitudes at any common base below both exponents gives
/// the same answer as `le`.
pub proof fn lemma_le_at(x: Dbl, y: Dbl, b: int)
    requires
        x.wf(),
        y.wf(),
        b <= x.e,
        b <= y.e,
    ensures
        le(x, y) <==> scaled(x, b) <= scaled(y, b),
{
    let b0 = if x.e <= y.e {
        x.e as int
    } else {
        y.e as int
    };
    let d = (b0 - b) as nat;
    let f = p2(d);
    lemma_p2_pos(d);
    lemma_p2_add((x.e - b0) as nat, d);
    lemma_p2_add((y.e - b0) as nat, d);
    assert((x.e - b0) as nat + d == (x.e - b) as nat);
    assert((y.e - b0) as nat + d == (y.e - b) as nat);
    let xa = x.m as nat;
    let ya = y.m as nat;
    let px = p2((x.e - b0) as nat);
    let py = p2((y.e - b0) as nat);
    assert(xa * (px * f) == (xa * px) * f) by (nonlinear_arith);
    assert(ya * (py * f) == (ya * py) * f) by (nonlinear_arith);
    assert((xa * px <= ya * py) <==> ((xa * px) * f <= (ya * py) * f)) by (nonlinear_arith)
        requires
            f >= 1,
    ;
}

/// `le` is transitive.
pub proof fn lemma_le_trans(x: Dbl, y: Dbl, z: Dbl)
    requires
        x.wf(),
        y.wf(),
        z.wf(),
        le(x, y),
        le(y, z),
    ensures
        le(x, z),
{
    let b = if x.e <= y.e && x.e <= z.e {
        x.e as int
    } else if y.e <= z.e {
        y.e as int
    } else {
        z.e as int
    };
    lemma_le_at(x, y, b);
    lemma_le_at(y, z, b);
    lemma_le_at(x, z, b);
}

/// Zero is below every magnitude, and only zero is below zero.
pub proof fn lemma_le_zero(x: Dbl)
    requires
        x.wf(),
    ensures
        le(Dbl { m: 0, e: 0 }, x),
        le(x, Dbl { m: 0, e: 0 }) <==> x.is_zero(),
{
    let z = Dbl { m: 0, e: 0 };
    let b = if x.e <= 0 {
        x.e as int
    } else {
        0
    };
    let f = p2((x.e - b) as nat);
    lemma_p2_pos((x.e - b) as nat);
    let g = p2((0 - b) as nat);
    assert(0 * g == 0);
    let xm = x.m as nat;
    assert(xm * f >= 0) by (nonlinear_arith)
        requires
            f >= 1,
    ;
    assert(xm * f == 0 <==> xm == 0) by (nonlinear_arith)
        requires
            f >= 1,
    ;
}

/// A sum of magnitudes is zero only when both are.
pub proof fn lemma_add_zero(x: Dbl, y: Dbl)
    requires
        x.wf(),
        y.wf(),
    ensures
        add_spec(x, y).is_zero() <==> (x.is_zero() && y.is_zero()),
{
    if !x.is_zero() && !y.is_zero() {
        let b = if x.e <= y.e {
            x.e as int
        } else {
            y.e as int
        };
        let f = p2((x.e - b) as nat);
        lemma_p2_pos((x.e - b) as nat);
        let xm = x.m as nat;
        assert(xm * f >= 1) by (nonlinear_arith)
            requires
                f >= 1,
                xm >= 1,
        ;
        lemma_round_bits_nonzero((scaled(x, b) + scaled(y, b)) as nat, b);
    }
}

/// A difference `x - y` of magnitudes with `y <= x` is zero only when
/// `x <= y` too.
pub proof fn lemma_sub_zero(x: Dbl, y: Dbl)
    requires
        x.wf(),
        y.wf(),
        le(y, x),
    ensures
        sub_spec(x, y).is_zero() <==> le(x, y),
{
    lemma_le_zero(x);
    lemma_le_zero(y);
    if !y.is_zero() {
        let b = if x.e <= y.e {
            x.e as int
        } else {
            y.e as int
        };
        lemma_le_at(x, y, b);
        lemma_le_at(y, x, b);
        let n = (scaled(x, b) - scaled(y, b)) as nat;
        if n > 0 {
            lemma_round_bits_nonzero(n, b);
        }
    }
}

/// `fle` is transitive.
pub proof fn lemma_fle_trans(x: Float, y: Float, z: Float)
    requires
        x.wf(),
        y.wf(),
        z.wf(),
        fle(x, y),
        fle(y, z),
    ensures
        fle(x, z),
{
    lemma_le_zero(x.mag);
    lemma_le_zero(y.mag);
    lemma_le_zero(z.mag);
    if x.neg && y.neg && z.neg {
        lemma_le_trans(z.mag, y.mag, x.mag);
    } else if !x.neg && !y.neg && !z.neg {
        lemma_le_trans(x.mag, y.mag, z.mag);
    }
}

/// The difference of two values that differ is not zero.
pub proof fn lemma_fsub_nonzero(x: Float, y: Float)
    requires
        x.wf(),
        y.wf(),
        flt(x, y) || flt(y, x),
    ensures
        !fsub(x, y).mag.is_zero(),
{
    lemma_le_zero(x.mag);
    lemma_le_zero(y.mag);
    lemma_le_total(x.mag, y.mag);
    lemma_add_zero(x.mag, y.mag);
    if le(y.mag, x.mag) {
        lemma_sub_zero(x.mag, y.mag);
    }
    if le(x.mag, y.mag) {
        lemma_sub_zero(y.mag, x.mag);
    }
}


} // verus!
