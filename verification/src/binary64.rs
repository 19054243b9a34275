//! Finite, non-negative IEEE-754 binary64 values and the few correctly rounded
//! operations the renderer needs, carried out exactly on integers.
//!
//! A value is `m * 2^e` with a 53-bit significand `m` (`2^52 <= m < 2^53`), or
//! zero.  Every operation rounds the exact result to the nearest such value,
//! ties to even, which is what the hardware does for `f64`.

use vstd::prelude::*;
use vstd::arithmetic::div_mod::*;

verus! {

pub const P52: u64 = 0x10_0000_0000_0000;
pub const P53: u64 = 0x20_0000_0000_0000;

/// Exponents of the values any operation accepts stay inside this bound.
pub const EXP_LIMIT: i64 = 0x100_0000_0000;

/// A non-negative binary64 value `m * 2^e`.
#[derive(Clone, Copy)]
pub struct Dbl {
    pub m: u64,
    pub e: i64,
}

impl Dbl {
    /// Zero (as `0 * 2^0`), or a normalized 53-bit significand.
    pub open spec fn wf(self) -> bool {
        &&& (self.m == 0 && self.e == 0) || (P52 <= self.m < P53)
        &&& -EXP_LIMIT <= self.e <= EXP_LIMIT
    }

    /// Well formed with an exponent small enough for every operation.
    pub open spec fn usable(self) -> bool {
        &&& self.wf()
        &&& -0x4000_0000 <= self.e <= 0x4000_0000
    }

    pub open spec fn is_zero(self) -> bool {
        self.m == 0
    }
}

/// Powers of two.
pub open spec fn p2(n: nat) -> nat
    decreases n,
{
    if n == 0 {
        1
    } else {
        2 * p2((n - 1) as nat)
    }
}

pub proof fn lemma_p2_pos(n: nat)
    ensures
        p2(n) >= 1,
    decreases n,
{
    if n > 0 {
        lemma_p2_pos((n - 1) as nat);
    }
}

pub proof fn lemma_p2_add(a: nat, b: nat)
    ensures
        p2(a + b) == p2(a) * p2(b),
    decreases b,
{
    if b == 0 {
        assert(p2(0) == 1);
        assert(a + b == a);
    } else {
        let b1 = (b - 1) as nat;
        lemma_p2_add(a, b1);
        assert(p2(a + b) == 2 * p2((a + b1) as nat));
        assert(p2(b) == 2 * p2(b1));
        let x = p2(a);
        let y = p2(b1);
        assert(x * (2 * y) == 2 * (x * y)) by (nonlinear_arith);
    }
}

pub proof fn lemma_p2_lt(a: nat, b: nat)
    requires
        a < b,
    ensures
        p2(a) < p2(b),
    decreases b,
{
    lemma_p2_pos(a);
    if b == a + 1 {
    } else {
        lemma_p2_lt(a, (b - 1) as nat);
    }
}

pub proof fn lemma_p2_le(a: nat, b: nat)
    requires
        a <= b,
    ensures
        p2(a) <= p2(b),
{
    if a < b {
        lemma_p2_lt(a, b);
    }
}

pub proof fn lemma_p2_consts()
    ensures
        p2(52) == P52,
        p2(53) == P53,
        p2(120) == 0x100_0000_0000_0000_0000_0000_0000_0000,
        p2(126) == 0x4000_0000_0000_0000_0000_0000_0000_0000,
{
    reveal_with_fuel(p2, 17);
    assert(p2(13) == 8192);
    assert(p2(16) == 65536);
    assert(p2(6) == 64);
    lemma_p2_add(13, 13);
    assert(p2(26) == 0x400_0000);
    lemma_p2_add(26, 26);
    assert(p2(52) == 0x10_0000_0000_0000);
    assert(p2(53) == 2 * p2(52));
    lemma_p2_add(52, 52);
    assert(p2(104) == 0x100_0000_0000_0000_0000_0000_0000);
    lemma_p2_add(104, 16);
    assert(p2(120) == 0x100_0000_0000_0000_0000_0000_0000_0000);
    lemma_p2_add(120, 6);
}

/// Number of binary digits of `n` (0 for 0).
pub open spec fn blen(n: nat) -> nat
    decreases n,
{
    if n == 0 {
        0
    } else {
        1 + blen(n / 2)
    }
}

pub proof fn lemma_blen_bounds(n: nat)
    requires
        n >= 1,
    ensures
        blen(n) >= 1,
        p2((blen(n) - 1) as nat) <= n < p2(blen(n)),
    decreases n,
{
    if n == 1 {
        assert(blen(0) == 0);
        assert(blen(1) == 1);
        assert(p2(1) == 2 * p2(0));
    } else {
        lemma_blen_bounds(n / 2);
        let b = blen(n / 2);
        assert(blen(n) == 1 + b);
        assert(p2(b + 1) == 2 * p2(b));
        assert(p2(b) == 2 * p2((b - 1) as nat));
    }
}

/// The bit length is fixed by the power-of-two interval that holds `n`.
pub proof fn lemma_blen_unique(n: nat, b: nat)
    requires
        b >= 1,
        p2((b - 1) as nat) <= n < p2(b),
    ensures
        blen(n) == b,
{
    lemma_p2_pos((b - 1) as nat);
    lemma_blen_bounds(n);
    let c = blen(n);
    if c < b {
        lemma_p2_le(c, (b - 1) as nat);
    } else if c > b {
        lemma_p2_le(b, (c - 1) as nat);
    }
}

pub proof fn lemma_blen_le(n: nat, k: nat)
    requires
        n < p2(k),
    ensures
        blen(n) <= k,
{
    if n >= 1 {
        lemma_blen_bounds(n);
        if blen(n) > k {
            lemma_p2_le(k, (blen(n) - 1) as nat);
        }
    }
}

/// `lo * d <= n < hi * d` places `n / d` in `[lo, hi)`.
pub proof fn lemma_div_range(n: nat, d: nat, lo: nat, hi: nat)
    requires
        d > 0,
        lo * d <= n,
        n < hi * d,
    ensures
        lo <= n / d < hi,
        n == (n / d) * d + n % d,
{
    lemma_fundamental_div_mod(n as int, d as int);
    lemma_mod_pos_bound(n as int, d as int);
    let q = n / d;
    let r = n % d;
    assert(lo <= q < hi && n == q * d + r) by (nonlinear_arith)
        requires
            n == d * q + r,
            0 <= r < d,
            lo * d <= n,
            n < hi * d,
            d > 0,
    ;
}

/// Multiplying by `p2(0)` changes nothing.
pub proof fn lemma_times_one(a: nat)
    ensures
        a * p2(0) == a,
{
    assert(p2(0) == 1);
    assert(a * 1 == a);
}

/// Round-to-nearest, ties-to-even: whether a truncated quotient `q` with
/// remainder `r` over divisor `d` goes up by one.
pub open spec fn rne_up(q: nat, r: nat, d: nat) -> bool {
    2 * r > d || (2 * r == d && q % 2 == 1)
}

/// A rounded 53-bit significand `q` (possibly `2^53` after rounding up) at
/// exponent `e`, renormalized.
pub open spec fn pack(q: nat, e: int) -> Dbl {
    if q == P53 {
        Dbl { m: P52, e: (e + 1) as i64 }
    } else {
        Dbl { m: q as u64, e: e as i64 }
    }
}

/// The binary64 value nearest to `n * 2^e` (ties to even).
pub open spec fn round_bits(n: nat, e: int) -> Dbl {
    if n == 0 {
        Dbl { m: 0, e: 0 }
    } else if blen(n) <= 53 {
        let s = (53 - blen(n)) as nat;
        Dbl { m: (n * p2(s)) as u64, e: (e - s) as i64 }
    } else {
        let k = (blen(n) - 53) as nat;
        let q = n / p2(k);
        let r = n % p2(k);
        pack(
            if rne_up(q, r, p2(k)) {
                q + 1
            } else {
                q
            },
            e + k,
        )
    }
}

/// The binary64 value nearest to the quotient `a / b` (ties to even).
pub open spec fn round_div(a: nat, b: nat) -> Dbl {
    let j0 = (52 + blen(b) - blen(a)) as nat;
    let j = if a * p2(j0) >= P52 * b {
        j0
    } else {
        j0 + 1
    };
    let q = (a * p2(j)) / b;
    let r = (a * p2(j)) % b;
    pack(
        if rne_up(q, r, b) {
            q + 1
        } else {
            q
        },
        -j,
    )
}

pub fn p2_exec(k: u32) -> (p: u128)
    requires
        k <= 126,
    ensures
        p == p2(k as nat),
{
    let mut p: u128 = 1;
    let mut i: u32 = 0;
    proof {
        lemma_p2_consts();
    }
    while i < k
        invariant
            i <= k <= 126,
            p == p2(i as nat),
            p2(126) == 0x4000_0000_0000_0000_0000_0000_0000_0000,
        decreases k - i,
    {
        proof {
            lemma_p2_le(i as nat, 125);
            assert(p2(126) == 2 * p2(125));
            assert(p2((i + 1) as nat) == 2 * p2(i as nat));
        }
        p = p * 2;
        i = i + 1;
    }
    p
}

pub fn blen_exec(n: u128) -> (b: u32)
    ensures
        b == blen(n as nat),
{
    let mut t = n;
    let mut b: u32 = 0;
    proof {
        lemma_p2_consts();
        lemma_p2_add(120, 8);
        assert(p2(8) == 256) by {
            reveal_with_fuel(p2, 9);
        }
        lemma_blen_le(n as nat, 128);
    }
    while t > 0
        invariant
            b + blen(t as nat) == blen(n as nat),
            blen(n as nat) <= 128,
        decreases t,
    {
        t = t / 2;
        b = b + 1;
    }
    b
}

pub const P120: u128 = 0x100_0000_0000_0000_0000_0000_0000_0000;

/// The rounded value is well formed and its exponent moves by a bounded amount.
pub proof fn lemma_round_bits_shape(n: nat, e: int)
    requires
        n < P120,
        -0x8000_0000 <= e <= 0x8000_0000,
    ensures
        round_bits(n, e).wf(),
        n > 0 ==> e - 53 <= round_bits(n, e).e <= e + 68,
        n == 0 ==> round_bits(n, e).is_zero(),
{
    if n > 0 {
        lemma_p2_consts();
        lemma_blen_bounds(n);
        lemma_blen_le(n, 120);
        let b = blen(n);
        if b <= 53 {
            let s = (53 - b) as nat;
            lemma_p2_add((b - 1) as nat, s);
            lemma_p2_add(b, s);
            assert((b - 1) as nat + s == 52);
            assert(b + s == 53);
            let lo = p2((b - 1) as nat);
            let hi = p2(b);
            let f = p2(s);
            lemma_p2_pos(s);
            assert(lo * f <= n * f < hi * f) by (nonlinear_arith)
                requires
                    lo <= n < hi,
                    f >= 1,
            ;
            lemma_p2_pos(s);
        } else {
            let k = (b - 53) as nat;
            lemma_p2_add(52, k);
            lemma_p2_add(53, k);
            assert(52 + k == (b - 1) as nat);
            assert(53 + k == b);
            lemma_p2_pos(k);
            assert(P52 * p2(k) == p2(k) * P52) by (nonlinear_arith);
            assert(P53 * p2(k) == p2(k) * P53) by (nonlinear_arith);
            lemma_div_range(n, p2(k), P52 as nat, P53 as nat);
        }
    }
}

/// Below `2^K` the rounded exponent is at most `e + K - 52`.
pub proof fn lemma_round_bits_exp(n: nat, e: int, big_k: nat)
    requires
        n < p2(big_k),
        53 <= big_k <= 200,
        -0x8000_0000 <= e <= 0x8000_0000,
    ensures
        round_bits(n, e).e <= e + big_k - 52 || n == 0,
{
    if n > 0 {
        lemma_blen_le(n, big_k);
    }
}

/// Rounds `n * 2^e` to the nearest binary64 value.
pub fn round_bits_exec(n: u128, e: i64) -> (r: Dbl)
    requires
        n < P120,
        -0x8000_0000 <= e <= 0x8000_0000,
    ensures
        r == round_bits(n as nat, e as int),
        r.wf(),
        n > 0 ==> e - 53 <= r.e <= e + 68,
        n == 0 ==> r.is_zero(),
{
    proof {
        lemma_round_bits_shape(n as nat, e as int);
    }
    if n == 0 {
        return Dbl { m: 0, e: 0 };
    }
    let b = blen_exec(n);
    proof {
        lemma_p2_consts();
        lemma_blen_bounds(n as nat);
        lemma_blen_le(n as nat, 120);
    }
    if b <= 53 {
        let s = 53 - b;
        let p = p2_exec(s);
        proof {
            lemma_p2_add(b as nat, s as nat);
            assert(b + s == 53);
            let hi = p2(b as nat);
            lemma_p2_pos(s as nat);
            assert(n * p < hi * p) by (nonlinear_arith)
                requires
                    n < hi,
                    p >= 1,
            ;
            lemma_p2_pos(s as nat);
        }
        let m = (n * p) as u64;
        Dbl { m, e: e - s as i64 }
    } else {
        let k = b - 53;
        let p = p2_exec(k);
        proof {
            lemma_p2_pos(k as nat);
            lemma_p2_le(k as nat, 120);
            lemma_p2_add(52, k as nat);
            lemma_p2_add(53, k as nat);
            assert(P52 * p2(k as nat) == p2(k as nat) * P52) by (nonlinear_arith);
            assert(P53 * p2(k as nat) == p2(k as nat) * P53) by (nonlinear_arith);
            lemma_div_range(n as nat, p2(k as nat), P52 as nat, P53 as nat);
        }
        let q = n / p;
        let rem = n % p;
        let up = rem * 2 > p || (rem * 2 == p && q % 2 == 1);
        let q2 = if up {
            q + 1
        } else {
            q
        };
        if q2 == P53 as u128 {
            Dbl { m: P52, e: e + k as i64 + 1 }
        } else {
            Dbl { m: q2 as u64, e: e + k as i64 }
        }
    }
}

/// Converts an integer to the nearest binary64 value (`n as f64`).
pub fn from_u64(n: u64) -> (r: Dbl)
    ensures
        r == round_bits(n as nat, 0),
        r.wf(),
        -53 <= r.e <= 68,
        n < P53 ==> r.e <= 1,
{
    proof {
        lemma_p2_consts();
        if n < P53 {
            lemma_round_bits_exp(n as nat, 0, 53);
        }
    }
    round_bits_exec(n as u128, 0)
}

/// The value `x * 2^(x.e - base)`, an integer once `base <= x.e`.
pub open spec fn scaled(x: Dbl, base: int) -> nat {
    (x.m * p2((x.e - base) as nat)) as nat
}

/// `x <= y` as real numbers.
pub open spec fn le(x: Dbl, y: Dbl) -> bool {
    let base = if x.e <= y.e {
        x.e as int
    } else {
        y.e as int
    };
    scaled(x, base) <= scaled(y, base)
}

/// `max` of two values (`f64::max`).
pub open spec fn max_spec(x: Dbl, y: Dbl) -> Dbl {
    if le(x, y) {
        y
    } else {
        x
    }
}

/// `min` of two values (`f64::min`).
pub open spec fn min_spec(x: Dbl, y: Dbl) -> Dbl {
    if le(x, y) {
        x
    } else {
        y
    }
}

/// Correctly rounded product.
pub open spec fn mul_spec(x: Dbl, y: Dbl) -> Dbl {
    round_bits((x.m * y.m) as nat, x.e + y.e)
}

/// Correctly rounded sum.
pub open spec fn add_spec(x: Dbl, y: Dbl) -> Dbl {
    if x.is_zero() {
        y
    } else if y.is_zero() {
        x
    } else {
        let base = if x.e <= y.e {
            x.e as int
        } else {
            y.e as int
        };
        round_bits(scaled(x, base) + scaled(y, base), base)
    }
}

/// Correctly rounded difference `x - y` of `x >= y`.
pub open spec fn sub_spec(x: Dbl, y: Dbl) -> Dbl {
    if y.is_zero() {
        x
    } else {
        let base = if x.e <= y.e {
            x.e as int
        } else {
            y.e as int
        };
        round_bits((scaled(x, base) - scaled(y, base)) as nat, base)
    }
}

proof fn lemma_le_by_exponent(x: Dbl, y: Dbl)
    requires
        x.wf(),
        y.wf(),
        !x.is_zero(),
        !y.is_zero(),
        x.e < y.e,
    ensures
        le(x, y),
        !le(y, x),
        scaled(x, x.e as int) == x.m,
{
    lemma_p2_consts();
    let d = (y.e - x.e) as nat;
    lemma_times_one(x.m as nat);
    lemma_times_one(y.m as nat);
    assert(p2(0) == 1);
    lemma_p2_le(1, d);
    assert(p2(1) == 2);
    let yd = p2(d);
    let ym = y.m as nat;
    assert(ym * yd >= P52 * 2) by (nonlinear_arith)
        requires
            ym >= P52,
            yd >= 2,
    ;
}

/// Value comparison `x <= y`.
pub fn le_exec(x: Dbl, y: Dbl) -> (b: bool)
    requires
        x.wf(),
        y.wf(),
    ensures
        b == le(x, y),
{
    proof {
        assert(p2(0) == 1);
    }
    if x.m == 0 {
        proof {
            let base = if x.e <= y.e { x.e as int } else { y.e as int };
            let f = p2((x.e - base) as nat);
            assert(0 * f == 0);
            assert(le(x, y));
        }
        true
    } else if y.m == 0 {
        proof {
            let base = if x.e <= y.e { x.e as int } else { y.e as int };
            lemma_p2_pos((x.e - base) as nat);
            let f = p2((x.e - base) as nat);
            let xm = x.m as nat;
            assert(xm * f >= 1) by (nonlinear_arith)
                requires
                    xm >= 1,
                    f >= 1,
            ;
            let g = p2((y.e - base) as nat);
            assert(0 * g == 0);
            assert(!le(x, y));
        }
        false
    } else if x.e < y.e {
        proof {
            lemma_le_by_exponent(x, y);
        }
        true
    } else if x.e > y.e {
        proof {
            lemma_le_by_exponent(y, x);
        }
        false
    } else {
        proof {
            lemma_times_one(x.m as nat);
            lemma_times_one(y.m as nat);
        }
        x.m <= y.m
    }
}

/// `!le(x, y)` gives `le(y, x)`: the order is total.
pub proof fn lemma_le_total(x: Dbl, y: Dbl)
    ensures
        le(x, y) || le(y, x),
{
}

pub fn max_exec(x: Dbl, y: Dbl) -> (r: Dbl)
    requires
        x.wf(),
        y.wf(),
    ensures
        r == max_spec(x, y),
{
    if le_exec(x, y) {
        y
    } else {
        x
    }
}

pub fn min_exec(x: Dbl, y: Dbl) -> (r: Dbl)
    requires
        x.wf(),
        y.wf(),
    ensures
        r == min_spec(x, y),
{
    if le_exec(x, y) {
        x
    } else {
        y
    }
}

/// Correctly rounded product `x * y`.
pub fn mul_exec(x: Dbl, y: Dbl) -> (r: Dbl)
    requires
        x.usable(),
        y.usable(),
    ensures
        r == mul_spec(x, y),
        r.wf(),
        !r.is_zero() ==> x.e + y.e - 53 <= r.e <= x.e + y.e + 54,
{
    proof {
        lemma_p2_consts();
        let a = x.m as nat;
        let b = y.m as nat;
        assert(a * b < P120) by (nonlinear_arith)
            requires
                a < P53,
                b < P53,
        ;
        lemma_p2_add(53, 53);
        assert(a * b < p2(106)) by (nonlinear_arith)
            requires
                a < P53,
                b < P53,
                p2(106) == P53 * P53,
        ;
        lemma_round_bits_exp(a * b, x.e + y.e, 106);
        lemma_round_bits_shape(a * b, x.e + y.e);
    }
    round_bits_exec(x.m as u128 * y.m as u128, x.e + y.e)
}

/// Adding a value at least 54 binary places below the other (under half a
/// unit in its last place) leaves the larger one unchanged.
pub proof fn lemma_add_far(big: Dbl, small: Dbl, d: nat)
    requires
        big.wf(),
        small.wf(),
        !big.is_zero(),
        !small.is_zero(),
        d == big.e - small.e,
        d >= 54,
    ensures
        round_bits((big.m * p2(d) + small.m) as nat, small.e as int) == big,
{
    lemma_p2_consts();
    lemma_p2_add(52, d);
    lemma_p2_add(53, d);
    lemma_p2_le(54, d);
    assert(p2(54) == 2 * p2(53));
    let pp = p2(d);
    let bm = big.m as nat;
    let sm = small.m as nat;
    let n = bm * pp + sm;
    assert(P52 * pp <= n < P53 * pp) by (nonlinear_arith)
        requires
            P52 <= bm < P53,
            sm < pp,
            n == bm * pp + sm,
    ;
    assert(p2(52) * p2(d) == P52 * pp);
    assert(p2(53) * p2(d) == P53 * pp);
    assert((52 + d + 1 - 1) as nat == 52 + d);
    lemma_blen_unique(n, 53 + d);
    lemma_fundamental_div_mod_converse(n as int, pp as int, bm as int, sm as int);
    assert(n / pp == bm);
    assert(n % pp == sm);
    assert(!rne_up(bm, sm, pp));
}

/// Subtracting a value more than 64 binary places below the other leaves the
/// larger one unchanged.
pub proof fn lemma_sub_far(x: Dbl, y: Dbl, d: nat)
    requires
        x.wf(),
        y.wf(),
        !x.is_zero(),
        !y.is_zero(),
        d == x.e - y.e,
        d > 64,
    ensures
        round_bits((x.m * p2(d) - y.m) as nat, y.e as int) == x,
{
    lemma_p2_consts();
    lemma_p2_le(54, d);
    assert(p2(54) == 2 * p2(53));
    let pp = p2(d);
    let xm = x.m as nat;
    let ym = y.m as nat;
    let n = (xm * pp - ym) as nat;
    assert(xm * pp >= ym) by (nonlinear_arith)
        requires
            xm >= 1,
            pp > ym,
    ;
    if xm > P52 {
        lemma_p2_add(52, d);
        lemma_p2_add(53, d);
        let q = (xm - 1) as nat;
        let r = (pp - ym) as nat;
        assert(n == q * pp + r && P52 * pp <= n < P53 * pp) by (nonlinear_arith)
            requires
                P52 < xm < P53,
                ym < pp,
                n == xm * pp - ym,
                q == xm - 1,
                r == pp - ym,
        ;
        assert(p2(52) * p2(d) == P52 * pp);
        assert(p2(53) * p2(d) == P53 * pp);
        lemma_blen_unique(n, 53 + d);
        lemma_fundamental_div_mod_converse(n as int, pp as int, q as int, r as int);
        assert(rne_up(q, r, pp));
    } else {
        let d1 = (d - 1) as nat;
        let qq = p2(d1);
        assert(pp == 2 * qq);
        lemma_p2_le(54, d1);
        lemma_p2_add(51, d);
        lemma_p2_add(52, d);
        assert(p2(52) == 2 * p2(51));
        let q = (P53 - 1) as nat;
        let r = (qq - ym) as nat;
        assert(n == q * qq + r && P52 * qq <= n < P53 * qq) by (nonlinear_arith)
            requires
                xm == P52,
                P53 == 2 * P52,
                ym < qq,
                ym >= 1,
                qq >= 4,
                pp == 2 * qq,
                n == xm * pp - ym,
                q == P53 - 1,
                r == qq - ym,
        ;
        assert(p2(51) * p2(d) == P52 * qq) by (nonlinear_arith)
            requires
                p2(52) == 2 * p2(51),
                p2(52) == P52,
                pp == 2 * qq,
                p2(d) == pp,
        ;
        assert(p2(52) * p2(d) == P53 * qq) by (nonlinear_arith)
            requires
                p2(52) == P52,
                P53 == 2 * P52,
                pp == 2 * qq,
                p2(d) == pp,
        ;
        assert((51 + d) as nat == (52 + d - 1) as nat);
        lemma_blen_unique(n, 52 + d);
        assert(blen(n) - 53 == d1);
        lemma_fundamental_div_mod_converse(n as int, qq as int, q as int, r as int);
        assert(rne_up(q, r, qq));
    }
}

/// Correctly rounded sum `x + y`.
pub fn add_exec(x: Dbl, y: Dbl) -> (r: Dbl)
    requires
        x.usable(),
        y.usable(),
    ensures
        r == add_spec(x, y),
        r.wf(),
        x.e - 53 <= r.e || y.e - 53 <= r.e || r.is_zero(),
        r.e <= x.e + 2 || r.e <= y.e + 2,
{
    if x.m == 0 {
        return y;
    }
    if y.m == 0 {
        return x;
    }
    let (big, small) = if x.e >= y.e {
        (x, y)
    } else {
        (y, x)
    };
    let d = big.e - small.e;
    proof {
        lemma_p2_consts();
        lemma_times_one(small.m as nat);
        lemma_times_one(big.m as nat);
    }
    if d > 64 {
        proof {
            lemma_add_far(big, small, d as nat);
        }
        return big;
    }
    let pp = p2_exec(d as u32);
    proof {
        lemma_p2_le(d as nat, 64);
        lemma_p2_add(53, 64);
        lemma_p2_add(117, 3);
        assert(p2(3) == 8) by {
            reveal_with_fuel(p2, 4);
        }
        let bm = big.m as nat;
        let sm = small.m as nat;
        assert(bm * pp + sm < P120) by (nonlinear_arith)
            requires
                bm < P53,
                sm < P53,
                pp <= p2(64),
                P53 * p2(64) == p2(117),
                p2(117) * 8 == P120,
        ;
        lemma_p2_add(54, d as nat);
        lemma_p2_add(53, d as nat);
        lemma_p2_pos(d as nat);
        assert(p2(54) == 2 * P53);
        assert(bm * pp + sm < p2((54 + d) as nat)) by (nonlinear_arith)
            requires
                bm < P53,
                sm < P53,
                pp >= 1,
                p2((54 + d) as nat) == 2 * P53 * pp,
        ;
        lemma_round_bits_exp((bm * pp + sm) as nat, small.e as int, (54 + d) as nat);
        lemma_round_bits_shape((bm * pp + sm) as nat, small.e as int);
    }
    round_bits_exec(big.m as u128 * pp + small.m as u128, small.e)
}

/// Correctly rounded difference `x - y` of values with `y <= x`.
pub fn sub_exec(x: Dbl, y: Dbl) -> (r: Dbl)
    requires
        x.usable(),
        y.usable(),
        le(y, x),
    ensures
        r == sub_spec(x, y),
        r.wf(),
        y.e - 53 <= r.e || r.is_zero() || r == x,
        r.e <= x.e + 1 || r.is_zero(),
{
    if y.m == 0 {
        return x;
    }
    proof {
        lemma_p2_consts();
        if x.m == 0 {
            lemma_p2_pos(0);
            let ym = y.m as nat;
            let f = p2((y.e - (if y.e <= x.e { y.e as int } else { x.e as int })) as nat);
            lemma_p2_pos((y.e - (if y.e <= x.e { y.e as int } else { x.e as int })) as nat);
            assert(ym * f >= 1) by (nonlinear_arith)
                requires
                    ym >= 1,
                    f >= 1,
            ;
            let g = p2((x.e - (if y.e <= x.e { y.e as int } else { x.e as int })) as nat);
            assert(0 * g == 0);
            assert(false);
        }
        if x.e < y.e {
            lemma_le_by_exponent(x, y);
        }
        lemma_times_one(y.m as nat);
        lemma_times_one(x.m as nat);
    }
    let d = x.e - y.e;
    if d > 64 {
        proof {
            lemma_sub_far(x, y, d as nat);
        }
        return x;
    }
    let pp = p2_exec(d as u32);
    proof {
        lemma_p2_le(d as nat, 64);
        lemma_p2_add(53, 64);
        lemma_p2_add(117, 3);
        assert(p2(3) == 8) by {
            reveal_with_fuel(p2, 4);
        }
        let xm = x.m as nat;
        assert(xm * pp < P120) by (nonlinear_arith)
            requires
                xm < P53,
                pp <= p2(64),
                P53 * p2(64) == p2(117),
                p2(117) * 8 == P120,
        ;
        assert(scaled(x, y.e as int) == xm * pp);
        lemma_p2_add(53, d as nat);
        lemma_p2_pos(d as nat);
        assert(xm * pp < p2((53 + d) as nat)) by (nonlinear_arith)
            requires
                xm < P53,
                pp >= 1,
                p2((53 + d) as nat) == P53 * pp,
        ;
        lemma_round_bits_exp((xm * pp - y.m) as nat, y.e as int, (53 + d) as nat);
        lemma_round_bits_shape((xm * pp - y.m) as nat, y.e as int);
    }
    round_bits_exec(x.m as u128 * pp - y.m as u128, y.e)
}

/// Correctly rounded quotient `a / b` of two integers (`a as f64 / b as f64`
/// for integers that convert exactly).
pub fn div_nat(a: u64, b: u64) -> (r: Dbl)
    requires
        1 <= a < P52,
        1 <= b,
    ensures
        r == round_div(a as nat, b as nat),
        r.wf(),
        -118 <= r.e <= 1,
        !r.is_zero(),
{
    proof {
        lemma_p2_consts();
        lemma_p2_add(64, 52);
        lemma_blen_bounds(a as nat);
        lemma_blen_bounds(b as nat);
        lemma_blen_le(a as nat, 52);
        assert(b < p2(64)) by {
            lemma_p2_add(52, 12);
            assert(p2(12) == 4096) by {
                reveal_with_fuel(p2, 13);
            }
        }
        lemma_blen_le(b as nat, 64);
    }
    let la = blen_exec(a as u128);
    let lb = blen_exec(b as u128);
    let j0 = 52 + lb - la;
    let p0 = p2_exec(j0);
    let ghost an = a as nat;
    let ghost bn = b as nat;
    proof {
        lemma_p2_add((la - 1) as nat, j0 as nat);
        lemma_p2_add(la as nat, j0 as nat);
        lemma_p2_add(52, lb as nat);
        lemma_p2_add(52, (lb - 1) as nat);
        lemma_p2_add(53, (lb - 1) as nat);
        lemma_p2_le(lb as nat, 64);
        assert((la - 1) as nat + j0 == 51 + lb);
        assert(la as nat + j0 == 52 + lb);
        assert(p2(52 + lb as nat) == 2 * p2((51 + lb) as nat));
        let lo = p2((la - 1) as nat);
        let hi = p2(la as nat);
        lemma_p2_pos(j0 as nat);
        assert(lo * p0 <= an * p0 < hi * p0) by (nonlinear_arith)
            requires
                lo <= an < hi,
                p0 >= 1,
        ;
        lemma_p2_pos(j0 as nat);
        let bl = p2((lb - 1) as nat);
        assert(P52 * bn < p2(116)) by (nonlinear_arith)
            requires
                bn < p2(64),
                P52 * p2(64) == p2(116),
        ;
        assert(p2(52 + lb as nat) <= p2(116));
        assert(P53 * bl <= P53 * bn) by (nonlinear_arith)
            requires
                bl <= bn,
        ;
        assert(P52 * bn < P52 * (2 * bl)) by (nonlinear_arith)
            requires
                bn < 2 * bl,
        ;
        assert(p2(lb as nat) == 2 * bl);
    }
    let t0 = a as u128 * p0;
    let j = if t0 >= P52 as u128 * b as u128 {
        j0
    } else {
        j0 + 1
    };
    let pj = p2_exec(j);
    proof {
        if j == j0 + 1 {
            assert(pj == 2 * p0);
            assert(an * pj == 2 * (an * p0)) by (nonlinear_arith)
                requires
                    pj == 2 * p0,
            ;
        } else {
            assert(pj == p0);
        }
    }
    proof {
        lemma_p2_add(116, 1);
        lemma_p2_le(117, 126);
        assert(t0 < p2(116));
        assert(an * pj <= 2 * t0) by (nonlinear_arith)
            requires
                pj <= 2 * p0,
                t0 == an * p0,
        ;
    }
    let t = a as u128 * pj;
    proof {
        assert(p2((51 + lb) as nat) == P52 * p2((lb - 1) as nat));
        assert(t0 >= p2((51 + lb) as nat));
        assert(P52 * bn <= t < P53 * bn) by (nonlinear_arith)
            requires
                (j == j0 && t == t0 && t0 >= P52 * bn) || (j == j0 + 1 && t == 2 * t0 && t0 < P52 * bn),
                t0 < P53 * bn,
                t0 >= P52 * p2((lb - 1) as nat),
                bn < 2 * p2((lb - 1) as nat),
                P53 == 2 * P52,
        ;
        lemma_div_range(t as nat, bn, P52 as nat, P53 as nat);
    }
    let q = t / b as u128;
    let rem = t % b as u128;
    let up = rem * 2 > b as u128 || (rem * 2 == b as u128 && q % 2 == 1);
    let q2 = if up {
        q + 1
    } else {
        q
    };
    if q2 == P53 as u128 {
        Dbl { m: P52, e: 1 - j as i64 }
    } else {
        Dbl { m: q2 as u64, e: 0 - j as i64 }
    }
}

/// Powers of ten.
pub open spec fn p10(n: nat) -> nat
    decreases n,
{
    if n == 0 {
        1
    } else {
        10 * p10((n - 1) as nat)
    }
}

/// `x * 10^p` rounded to the nearest integer, ties to even: the digits that
/// `format!("{:.p$}", x)` prints.
pub open spec fn round_scaled(x: Dbl, p: nat) -> nat {
    let t = (x.m * p10(p)) as nat;
    if x.e >= 0 {
        (t * p2(x.e as nat)) as nat
    } else {
        let d = p2((-x.e) as nat);
        let q = t / d;
        let r = t % d;
        if rne_up(q, r, d) {
            q + 1
        } else {
            q
        }
    }
}

pub fn to_fixed(x: Dbl, p: u32) -> (n: u128)
    requires
        x.wf(),
        p <= 3,
        x.e <= 60,
    ensures
        n == round_scaled(x, p as nat),
{
    let pt: u64 = if p == 0 {
        1
    } else if p == 1 {
        10
    } else if p == 2 {
        100
    } else {
        1000
    };
    proof {
        reveal_with_fuel(p10, 4);
        lemma_p2_consts();
    }
    let t = x.m as u128 * pt as u128;
    if x.e >= 0 {
        let pe = p2_exec(x.e as u32);
        proof {
            lemma_p2_le(x.e as nat, 60);
            lemma_p2_add(60, 66);
            lemma_p2_add(53, 10);
            assert(p2(10) == 1024) by {
                reveal_with_fuel(p2, 11);
            }
            let tt = t as nat;
            assert(tt < p2(63)) by (nonlinear_arith)
                requires
                    tt == x.m * pt,
                    x.m < P53,
                    pt <= 1000,
                    P53 * 1024 == p2(63),
            ;
            lemma_p2_add(63, 60);
            lemma_p2_le(123, 126);
            lemma_p2_pos(60);
            assert(tt * pe < p2(126)) by (nonlinear_arith)
                requires
                    p2(60) >= 1,
                    tt < p2(63),
                    pe <= p2(60),
                    p2(63) * p2(60) == p2(123),
                    p2(123) <= p2(126),
            ;
        }
        t * pe
    } else if x.e < -120 {
        proof {
            let k = (-x.e) as nat;
            lemma_p2_le(120, k);
            lemma_p2_pos(k);
            let d = p2(k);
            assert(t < P120 / 4);
            lemma_small_mod(t as nat, d);
            lemma_fundamental_div_mod(t as int, d as int);
            assert(t as nat / d == 0) by {
                lemma_basic_div(t as int, d as int);
            }
        }
        0
    } else {
        let d = p2_exec((0 - x.e) as u32);
        proof {
            lemma_p2_pos((-x.e) as nat);
        }
        let q = t / d;
        let r = t % d;
        proof {
            lemma_p2_le((-x.e) as nat, 120);
        }
        if r * 2 > d || (r * 2 == d && q % 2 == 1) {
            q + 1
        } else {
            q
        }
    }
}

/// `x <= c` for a magnitude `x` and an integer `c`.
pub open spec fn val_le(x: Dbl, c: nat) -> bool {
    if x.e >= 0 {
        x.m * p2(x.e as nat) <= c
    } else {
        x.m <= c * p2((-x.e) as nat)
    }
}

/// An integer below `2^53` converts exactly: `n * 2^k` at exponent `-k`.
pub proof fn lemma_int_exact(n: nat)
    requires
        1 <= n < P53,
    ensures
        ({
            let k = (53 - blen(n)) as nat;
            &&& k <= 52
            &&& round_bits(n, 0) == (Dbl { m: (n * p2(k)) as u64, e: -k as i64 })
            &&& P52 <= n * p2(k) < P53
        }),
{
    lemma_p2_consts();
    lemma_blen_le(n, 53);
    lemma_blen_bounds(n);
    let b = blen(n);
    let k = (53 - b) as nat;
    lemma_p2_add(b, k);
    lemma_p2_add((b - 1) as nat, k);
    assert(b + k == 53);
    assert((b - 1) as nat + k == 52);
    let lo = p2((b - 1) as nat);
    let hi = p2(b);
    let pk = p2(k);
    lemma_p2_pos(k);
    assert(lo * pk <= n * pk < hi * pk) by (nonlinear_arith)
        requires
            lo <= n < hi,
            pk >= 1,
    ;
}

/// Rounding never carries a value past an integer bound it was below.
pub proof fn lemma_round_le(n: nat, e: int, c: nat)
    requires
        0 < n < p2(0x800),
        -0x1000 <= e <= 0x1000,
        c < P53,
        e >= 0 ==> n * p2(e as nat) <= c,
        e < 0 ==> n <= c * p2((-e) as nat),
    ensures
        val_le(round_bits(n, e), c),
{
    lemma_p2_consts();
    lemma_blen_bounds(n);
    lemma_blen_le(n, 0x800);
    let b = blen(n);
    if b <= 53 {
        let k = (53 - b) as nat;
        let pk = p2(k);
        lemma_p2_pos(k);
        let r = round_bits(n, e);
        lemma_p2_add(b, k);
        assert(b + k == 53);
        let hi = p2(b);
        assert(n * pk < hi * pk) by (nonlinear_arith)
            requires
                n < hi,
                pk >= 1,
        ;
        assert(r.m == n * pk && r.e == e - k);
        if e - k >= 0 {
            let ee = (e - k) as nat;
            lemma_p2_add(ee, k);
            assert(e as nat == ee + k);
            let pe = p2(ee);
            assert(n * pk * pe == n * (pe * pk)) by (nonlinear_arith);
            assert(val_le(r, c));
        } else if e >= 0 {
            let d = (k - e) as nat;
            lemma_p2_add(e as nat, d);
            assert(k == e as nat + d);
            let pe = p2(e as nat);
            let pd = p2(d);
            lemma_p2_pos(d);
            assert(n * pk <= c * pd) by (nonlinear_arith)
                requires
                    n * pe <= c,
                    pk == pe * pd,
                    pd >= 1,
            ;
            assert((-(e - k)) as nat == d);
            assert(val_le(r, c));
        } else {
            let v = (-e) as nat;
            lemma_p2_add(v, k);
            let pv = p2(v);
            assert(n * pk <= c * p2(v + k)) by (nonlinear_arith)
                requires
                    n <= c * pv,
                    p2(v + k) == pv * pk,
            ;
            assert((-(e - k)) as nat == v + k);
            assert(val_le(r, c));
        }
    } else {
        let k = (b - 53) as nat;
        let pk = p2(k);
        lemma_p2_pos(k);
        lemma_p2_add(52, k);
        lemma_p2_add(53, k);
        assert(52 + k == (b - 1) as nat);
        assert(53 + k == b);
        let q = n / pk;
        let rr = n % pk;
        lemma_div_range(n, pk, P52 as nat, P53 as nat);
        // the value is at least 2^52 * 2^(e + k), so e + k <= 0
        if e >= 0 {
            let pe = p2(e as nat);
            lemma_p2_pos(e as nat);
            assert(n * pe >= n) by (nonlinear_arith)
                requires
                    pe >= 1,
            ;
            assert(n >= P52 * pk);
            assert(P52 * pk >= P53) by (nonlinear_arith)
                requires
                    pk >= 2,
                    P53 == 2 * P52,
            ;
            assert(false);
        }
        let v0 = (-e) as nat;
        lemma_p2_pos(v0);
        if v0 < k {
            let d = (k - v0) as nat;
            lemma_p2_add(v0, d);
            assert(k == v0 + d);
            lemma_p2_pos(d);
            let pv = p2(v0);
            let pd = p2(d);
            assert(n >= P52 * (pv * pd));
            assert(c * pv >= P52 * pv * pd) by (nonlinear_arith)
                requires
                    n <= c * pv,
                    n >= P52 * (pv * pd),
            ;
            assert(c >= P52 * pd) by (nonlinear_arith)
                requires
                    c * pv >= P52 * pv * pd,
                    pv >= 1,
            ;
            assert(P52 * pd >= P53) by (nonlinear_arith)
                requires
                    pd >= 2,
                    P53 == 2 * P52,
            ;
            assert(false);
        }
        // e + k <= 0: the result's exponent is -v with v = -e - k
        let v = (v0 - k) as nat;
        let pv = p2(v);
        lemma_p2_add(v, k);
        assert(v0 == v + k);
        assert(p2(v0) == pv * pk);
        assert(n <= c * pv * pk) by (nonlinear_arith)
            requires
                n <= c * p2(v0),
                p2(v0) == pv * pk,
        ;
        let up = rne_up(q, rr, pk);
        let q2 = if up {
            q + 1
        } else {
            q
        };
        assert(q2 <= c * pv) by (nonlinear_arith)
            requires
                n == q * pk + rr,
                0 <= rr < pk,
                up ==> rr >= 1,
                q2 == (if up {
                    q + 1
                } else {
                    q
                }),
                n <= c * pv * pk,
                pk >= 1,
        ;
        let r = round_bits(n, e);
        if q2 == P53 {
            assert(r.m == P52 && r.e == e + k + 1);
            if v == 0 {
                assert(pv == 1) by {
                    assert(p2(0) == 1);
                }
                assert(c * pv == c) by (nonlinear_arith)
                    requires
                        pv == 1,
                ;
                assert(false);
            }
            let v1 = (v - 1) as nat;
            lemma_p2_add(v1, 1);
            assert(p2(1) == 2) by {
                reveal_with_fuel(p2, 2);
            }
            assert(P52 <= c * p2(v1)) by (nonlinear_arith)
                requires
                    P53 <= c * pv,
                    pv == p2(v1) * 2,
                    P53 == 2 * P52,
            ;
            assert((-(e + k + 1)) as nat == v1);
            if v1 == 0 {
                assert(p2(0) == 1);
                assert(P52 * p2(0) == P52);
                assert(c * p2(0) == c) by (nonlinear_arith)
                    requires
                        p2(0) == 1,
                ;
            }
            assert(val_le(r, c));
        } else {
            assert(r.m == q2 && r.e == e + k);
            assert((-(e + k)) as nat == v);
            if v == 0 {
                assert(p2(0) == 1);
                assert(q2 * p2(0) == q2);
                assert(c * p2(0) == c) by (nonlinear_arith)
                    requires
                        p2(0) == 1,
                ;
            }
            assert(val_le(r, c));
        }
    }
}

/// `x >= c` for a magnitude `x` and an integer `c`.
pub open spec fn val_ge(x: Dbl, c: nat) -> bool {
    if x.e >= 0 {
        x.m * p2(x.e as nat) >= c
    } else {
        x.m >= c * p2((-x.e) as nat)
    }
}

/// Rounding never carries a value below an integer bound it was above.
pub proof fn lemma_round_ge(n: nat, e: int, c: nat)
    requires
        0 < n < p2(0x800),
        -0x1000 <= e <= 0x1000,
        c < P52,
        e >= 0 ==> n * p2(e as nat) >= c,
        e < 0 ==> n >= c * p2((-e) as nat),
    ensures
        val_ge(round_bits(n, e), c),
{
    lemma_p2_consts();
    lemma_blen_bounds(n);
    lemma_blen_le(n, 0x800);
    let b = blen(n);
    let r = round_bits(n, e);
    if b <= 53 {
        let k = (53 - b) as nat;
        let pk = p2(k);
        lemma_p2_pos(k);
        lemma_p2_add(b, k);
        assert(b + k == 53);
        let hi = p2(b);
        assert(n * pk < hi * pk) by (nonlinear_arith)
            requires
                n < hi,
                pk >= 1,
        ;
        assert(r.m == n * pk && r.e == e - k);
        if e - k >= 0 {
            let ee = (e - k) as nat;
            lemma_p2_add(ee, k);
            assert(e as nat == ee + k);
            let pe = p2(ee);
            assert(n * pk * pe == n * (pe * pk)) by (nonlinear_arith);
        } else if e >= 0 {
            let d = (k - e) as nat;
            lemma_p2_add(e as nat, d);
            assert(k == e as nat + d);
            let pe = p2(e as nat);
            let pd = p2(d);
            lemma_p2_pos(d);
            assert(n * pk >= c * pd) by (nonlinear_arith)
                requires
                    n * pe >= c,
                    pk == pe * pd,
                    pd >= 1,
            ;
            assert((-(e - k)) as nat == d);
        } else {
            let v = (-e) as nat;
            lemma_p2_add(v, k);
            let pv = p2(v);
            assert(n * pk >= c * p2(v + k)) by (nonlinear_arith)
                requires
                    n >= c * pv,
                    p2(v + k) == pv * pk,
            ;
            assert((-(e - k)) as nat == v + k);
        }
    } else {
        let k = (b - 53) as nat;
        let pk = p2(k);
        lemma_p2_pos(k);
        lemma_p2_add(52, k);
        lemma_p2_add(53, k);
        assert(52 + k == (b - 1) as nat);
        assert(53 + k == b);
        let q = n / pk;
        let rr = n % pk;
        lemma_div_range(n, pk, P52 as nat, P53 as nat);
        let up = rne_up(q, rr, pk);
        let q2 = if up {
            q + 1
        } else {
            q
        };
        if e + k >= 0 {
            let u = (e + k) as nat;
            lemma_p2_pos(u);
            let pu = p2(u);
            if q2 == P53 {
                lemma_p2_pos(u + 1);
                assert(P52 * p2(u + 1) >= c) by (nonlinear_arith)
                    requires
                        p2(u + 1) >= 1,
                        c < P52,
                ;
            } else {
                assert(q2 * pu >= c) by (nonlinear_arith)
                    requires
                        pu >= 1,
                        q2 >= P52,
                        c < P52,
                ;
            }
        } else {
            let v = (-(e + k)) as nat;
            let v0 = (-e) as nat;
            lemma_p2_add(v, k);
            assert(v0 == v + k);
            let pv = p2(v);
            assert(q >= c * pv) by (nonlinear_arith)
                requires
                    n >= c * (pv * pk),
                    n == q * pk + rr,
                    rr < pk,
                    pk >= 1,
            ;
            if q2 == P53 {
                assert(r.m == P52 && r.e == e + k + 1);
                if v == 0 {
                    assert(p2(0) == 1);
                    assert(P52 * p2(0) == P52);
                } else {
                    let v1 = (v - 1) as nat;
                    lemma_p2_add(v1, 1);
                    assert(p2(1) == 2) by {
                        reveal_with_fuel(p2, 2);
                    }
                    assert(P52 >= c * p2(v1)) by (nonlinear_arith)
                        requires
                            P53 > c * pv,
                            pv == p2(v1) * 2,
                            P53 == 2 * P52,
                    ;
                    assert((-(e + k + 1)) as nat == v1);
                }
            } else {
                assert(r.m == q2 && r.e == e + k);
                assert((-(e + k)) as nat == v);
            }
        }
    }
}

/// `a / b` rounded is at most `(a + 1) / b`: `b * q <= (a + 1)` with `q`
/// read as `q.m * 2^q.e`.
pub proof fn lemma_round_div_le(a: nat, b: nat)
    requires
        1 <= a < 0x1_0000_0000,
        1 <= b < 0x2_0000_0000,
    ensures
        round_div(a, b).wf(),
        -0x100 <= round_div(a, b).e < 0,
        b * round_div(a, b).m <= (a + 1) * p2((-round_div(a, b).e) as nat),
{
    lemma_p2_consts();
    assert(p2(16) == 0x1_0000) by {
        reveal_with_fuel(p2, 17);
    }
    lemma_p2_add(16, 16);
    lemma_p2_add(32, 1);
    assert(p2(1) == 2) by {
        reveal_with_fuel(p2, 2);
    }
    lemma_blen_bounds(a);
    lemma_blen_bounds(b);
    lemma_blen_le(a, 32);
    lemma_blen_le(b, 33);
    let la = blen(a);
    let lb = blen(b);
    let j0 = (52 + lb - la) as nat;
    let p0 = p2(j0);
    lemma_p2_add((la - 1) as nat, j0);
    lemma_p2_add(la, j0);
    lemma_p2_add(52, lb);
    lemma_p2_add(52, (lb - 1) as nat);
    assert((la - 1) as nat + j0 == 51 + lb);
    assert(la + j0 == 52 + lb);
    assert(p2(52 + lb) == 2 * p2((51 + lb) as nat));
    let lo = p2((la - 1) as nat);
    let hi = p2(la);
    lemma_p2_pos(j0);
    assert(lo * p0 <= a * p0 < hi * p0) by (nonlinear_arith)
        requires
            lo <= a < hi,
            p0 >= 1,
    ;
    let bl = p2((lb - 1) as nat);
    assert(p2(lb) == 2 * bl);
    assert(P53 * bl <= P53 * b) by (nonlinear_arith)
        requires
            bl <= b,
    ;
    assert(P52 * b < P52 * (2 * bl)) by (nonlinear_arith)
        requires
            b < 2 * bl,
    ;
    assert(P52 * bl == p2((51 + lb) as nat));
    let j = if a * p0 >= P52 * b {
        j0
    } else {
        j0 + 1
    };
    let pj = p2(j);
    if j == j0 + 1 {
        lemma_p2_add(j0, 1);
    }
    assert(P52 * b <= a * pj < P53 * b) by (nonlinear_arith)
        requires
            (j == j0 && pj == p0 && a * p0 >= P52 * b) || (j == j0 + 1 && pj == p0 * 2 && a * p0
                < P52 * b),
            a * p0 < P53 * b,
            a * p0 >= P52 * bl,
            b < 2 * bl,
            P53 == 2 * P52,
    ;
    let t = (a * pj) as nat;
    lemma_div_range(t, b, P52 as nat, P53 as nat);
    let q = t / b;
    let r = t % b;
    let q2 = if rne_up(q, r, b) {
        q + 1
    } else {
        q
    };
    assert(round_div(a, b) == pack(q2, -j));
    lemma_p2_pos(j);
    assert(b < pj) by (nonlinear_arith)
        requires
            P52 * b <= a * pj,
            a < P52,
            P52 > 0,
            pj >= 1,
    ;
    assert(b * q2 <= (a + 1) * pj) by (nonlinear_arith)
        requires
            t == q * b + r,
            r < b,
            q2 <= q + 1,
            t == a * pj,
            b < pj,
    ;
    assert(j >= 21);
    if q2 == P53 {
        let j1 = (j - 1) as nat;
        lemma_p2_add(j1, 1);
        assert(b * P52 <= (a + 1) * p2(j1)) by (nonlinear_arith)
            requires
                b * P53 <= (a + 1) * pj,
                pj == p2(j1) * 2,
                P53 == 2 * P52,
        ;
        assert((-(1 - j)) as nat == j1);
    }
}

/// A magnitude in units of `2^-230`: an integer once `x.e >= -230`.
pub open spec fn units(x: Dbl) -> nat {
    (x.m * p2((x.e + 230) as nat)) as nat
}

/// Rounding a value below `2^9` moves it by at most `2^-45` (half a unit
/// in its last place), counted in units of `2^-230`.
pub proof fn lemma_round_err(n: nat, e: int)
    requires
        -170 <= e <= 0,
        n * p2((e + 230) as nat) < p2(239),
    ensures
        round_bits(n, e).e >= -230,
        units(round_bits(n, e)) <= n * p2((e + 230) as nat) + p2(185),
        n * p2((e + 230) as nat) <= units(round_bits(n, e)) + p2(185),
{
    lemma_p2_consts();
    let r = round_bits(n, e);
    let we = (e + 230) as nat;
    let pe = p2(we);
    lemma_p2_pos(we);
    if n == 0 {
        assert(r.m == 0 && r.e == 0);
        assert(units(r) == 0) by (nonlinear_arith)
            requires
                r.m == 0,
                units(r) == r.m * p2((r.e + 230) as nat),
        ;
        lemma_p2_pos(185);
        assert(0 * pe == 0);
        return;
    }
    lemma_blen_bounds(n);
    let b = blen(n);
    if b <= 53 {
        let k = (53 - b) as nat;
        let pk = p2(k);
        lemma_p2_pos(k);
        lemma_p2_add(b, k);
        assert(b + k == 53);
        let hi = p2(b);
        assert(n * pk < hi * pk) by (nonlinear_arith)
            requires
                n < hi,
                pk >= 1,
        ;
        assert(r.m == n * pk && r.e == e - k);
        let wr = (e - k + 230) as nat;
        lemma_p2_add(wr, k);
        assert(wr + k == we);
        assert(units(r) == n * pe) by (nonlinear_arith)
            requires
                units(r) == r.m * p2(wr),
                r.m == n * pk,
                pe == p2(wr) * pk,
        ;
        lemma_p2_pos(185);
    } else {
        let k = (b - 53) as nat;
        let pk = p2(k);
        lemma_p2_pos(k);
        lemma_p2_add(52, k);
        lemma_p2_add(53, k);
        assert(52 + k == (b - 1) as nat);
        assert(53 + k == b);
        let q = n / pk;
        let rr = n % pk;
        lemma_div_range(n, pk, P52 as nat, P53 as nat);
        // n >= 2^(52 + k) forces e + k <= -44
        lemma_p2_add(52 + k, we);
        if e + k > -44 {
            lemma_p2_le(239, 52 + k + we);
            assert(p2(52 + k) * pe <= n * pe) by (nonlinear_arith)
                requires
                    p2(52 + k) <= n,
            ;
            assert(false);
        }
        let wu = (e + k + 230) as nat;
        let pu = p2(wu);
        lemma_p2_add(wu, 0);
        lemma_p2_add(we, k);
        assert(we + k == wu);
        assert(pu == pe * pk);
        let k1 = (k - 1) as nat;
        lemma_p2_add(k1, 1);
        assert(p2(1) == 2) by {
            reveal_with_fuel(p2, 2);
        }
        assert(pk == 2 * p2(k1));
        lemma_p2_add(k1, we);
        assert(k1 + we <= 185);
        lemma_p2_le(k1 + we, 185);
        let half = p2(k1) * pe;
        assert(half <= p2(185));
        let exact = n * pe;
        assert(exact == q * pu + rr * pe) by (nonlinear_arith)
            requires
                n == q * pk + rr,
                pu == pe * pk,
                exact == n * pe,
        ;
        let up = rne_up(q, rr, pk);
        let q2 = if up {
            q + 1
        } else {
            q
        };
        assert(units(r) == q2 * pu) by {
            if q2 == P53 {
                assert(r.m == P52 && r.e == e + k + 1);
                lemma_p2_add(wu, 1);
                assert(units(r) == P52 * p2(wu + 1));
                assert(P52 * (pu * 2) == P53 * pu) by (nonlinear_arith)
                    requires
                        P53 == 2 * P52,
                ;
            } else {
                assert(r.m == q2 && r.e == e + k);
            }
        }
        if up {
            assert(2 * rr >= pk);
            assert(q2 * pu <= exact + half && exact <= q2 * pu + half) by (nonlinear_arith)
                requires
                    q2 == q + 1,
                    exact == q * pu + rr * pe,
                    pu == pe * pk,
                    2 * rr >= pk,
                    rr < pk,
                    pk == 2 * p2(k1),
                    half == p2(k1) * pe,
                    pe >= 1,
            ;
        } else {
            assert(2 * rr <= pk);
            assert(q2 * pu <= exact + half && exact <= q2 * pu + half) by (nonlinear_arith)
                requires
                    q2 == q,
                    exact == q * pu + rr * pe,
                    2 * rr <= pk,
                    pk == 2 * p2(k1),
                    half == p2(k1) * pe,
                    pe >= 1,
            ;
        }
    }
}


/// A nonzero magnitude below `2^j` units has an exponent below `j - 282`.
pub proof fn lemma_units_exp_hi(x: Dbl, j: nat)
    requires
        x.wf(),
        !x.is_zero(),
        x.e >= -230,
        j >= 52,
        units(x) < p2(j),
    ensures
        x.e < j - 282,
{
    if x.e >= j - 282 {
        lemma_p2_consts();
        let w = (x.e + 230) as nat;
        let j1 = (j - 52) as nat;
        lemma_p2_le(j1, w);
        lemma_p2_add(52, j1);
        assert(x.m * p2(w) >= P52 * p2(j1)) by (nonlinear_arith)
            requires
                x.m >= P52,
                p2(w) >= p2(j1),
        ;
    }
}

/// The product of a byte and a magnitude of at most 2, rounded: within
/// `2^-45` of the exact product.
pub proof fn lemma_mul_units(n: nat, x: Dbl)
    requires
        n <= 255,
        x.wf(),
        -118 <= x.e <= 0,
        units(x) <= p2(231),
    ensures
        mul_spec(round_bits(n, 0), x).wf(),
        mul_spec(round_bits(n, 0), x).e >= -230,
        mul_spec(round_bits(n, 0), x).is_zero() <==> (n == 0 || x.is_zero()),
        !mul_spec(round_bits(n, 0), x).is_zero() ==> mul_spec(round_bits(n, 0), x).e >= x.e - 52,
        units(mul_spec(round_bits(n, 0), x)) <= n * units(x) + p2(185),
        n * units(x) <= units(mul_spec(round_bits(n, 0), x)) + p2(185),
{
    lemma_p2_consts();
    let t = mul_spec(round_bits(n, 0), x);
    let wx = (x.e + 230) as nat;
    if n == 0 || x.is_zero() {
        assert(round_bits(0, 0).m == 0);
        let c = round_bits(n, 0);
        assert(c.m * x.m == 0) by (nonlinear_arith)
            requires
                c.m == 0 || x.m == 0,
        ;
        assert(t == round_bits(0, c.e + x.e));
        assert(t.m == 0 && t.e == 0);
        assert(units(t) == 0) by (nonlinear_arith)
            requires
                t.m == 0,
                units(t) == t.m * p2(230),
        ;
        assert(n * units(x) == 0) by (nonlinear_arith)
            requires
                n == 0 || x.m == 0,
                units(x) == x.m * p2(wx),
        ;
        lemma_p2_pos(185);
    } else {
        assert(p2(8) == 256) by {
            reveal_with_fuel(p2, 9);
        }
        lemma_int_exact(n);
        let kn = (53 - blen(n)) as nat;
        let pn = p2(kn);
        let c = round_bits(n, 0);
        assert(c.m == n * pn && c.e == -kn);
        let big = (n * pn * x.m) as nat;
        let e = -kn + x.e;
        assert(t == round_bits(big, e));
        let we = (e + 230) as nat;
        lemma_p2_add(kn, we);
        assert(kn + we == wx);
        assert(big * p2(we) == n * units(x)) by (nonlinear_arith)
            requires
                big == n * pn * x.m,
                units(x) == x.m * p2(wx),
                p2(wx) == pn * p2(we),
        ;
        lemma_p2_add(8, 231);
        lemma_p2_pos(231);
        assert(n * units(x) < p2(239)) by (nonlinear_arith)
            requires
                n <= 255,
                units(x) <= p2(231),
                p2(239) == 256 * p2(231),
                p2(231) >= 1,
        ;
        lemma_round_err(big, e);
        assert(big > 0 && big < P120) by (nonlinear_arith)
            requires
                big == n * pn * x.m,
                n * pn >= P52,
                n * pn < P53,
                x.m >= P52,
                x.m < P53,
                P52 > 0,
                P53 == 0x20_0000_0000_0000,
                P120 == 0x100_0000_0000_0000_0000_0000_0000_0000,
        ;
        lemma_round_bits_shape(big, e);
        lemma_round_bits_nonzero(big, e);
        assert(big >= P52) by (nonlinear_arith)
            requires
                big == n * pn * x.m,
                n * pn >= P52,
                x.m >= P52,
                P52 > 0,
        ;
        lemma_p2_lt(120, 0x400);
        lemma_round_bits_e_lo(big, e);
    }
}

/// Rounding a positive number never gives zero.
pub proof fn lemma_round_bits_nonzero(n: nat, e: int)
    requires
        n > 0,
    ensures
        !round_bits(n, e).is_zero(),
{
    lemma_blen_bounds(n);
    lemma_p2_consts();
    if blen(n) <= 53 {
        let s = (53 - blen(n)) as nat;
        lemma_p2_pos(s);
        let f = p2(s);
        assert(n * f >= 1) by (nonlinear_arith)
            requires
                n >= 1,
                f >= 1,
        ;
        assert(n * f < 0x1_0000_0000_0000_0000) by {
            lemma_p2_add(blen(n), s);
            let hi = p2(blen(n));
            assert(n * f < hi * f) by (nonlinear_arith)
                requires
                    n < hi,
                    f >= 1,
            ;
        }
    } else {
        let k = (blen(n) - 53) as nat;
        lemma_p2_add(52, k);
        lemma_p2_pos(k);
        assert((blen(n) - 1) as nat == 52 + k);
        assert(p2(52) * p2(k) <= n);
        assert(P52 * p2(k) <= n);
        lemma_p2_add(53, k);
        assert(53 + k == blen(n));
        assert(n < P53 * p2(k));
        lemma_div_range(n, p2(k), P52 as nat, P53 as nat);
    }
}


/// Rounding depends on the value alone: `n * 2^j` at `e - j` rounds to the
/// same result as `n` at `e`.
pub proof fn lemma_round_scale(n: nat, e: int, j: nat)
    requires
        -0x1000 <= e <= 0x1000,
        j <= 0x1000,
    ensures
        round_bits(n * p2(j), e - j) == round_bits(n, e),
{
    lemma_p2_pos(j);
    let nj = n * p2(j);
    if n == 0 {
        assert(nj == 0);
        return;
    }
    assert(nj >= n) by (nonlinear_arith)
        requires
            nj == n * p2(j),
            p2(j) >= 1,
    ;
    lemma_blen_bounds(n);
    let b = blen(n);
    lemma_p2_add((b - 1) as nat, j);
    lemma_p2_add(b, j);
    let lo = p2((b - 1) as nat);
    let hi = p2(b);
    assert(lo * p2(j) <= nj < hi * p2(j)) by (nonlinear_arith)
        requires
            lo <= n < hi,
            nj == n * p2(j),
            p2(j) >= 1,
    ;
    assert(b + j >= 1);
    assert(((b + j) - 1) as nat == (b - 1) as nat + j);
    lemma_blen_unique(nj, b + j);
    let bj = b + j;
    if bj <= 53 {
        let sj = (53 - bj) as nat;
        let s0 = (53 - b) as nat;
        lemma_p2_add(j, sj);
        assert(j + sj == s0);
        assert(nj * p2(sj) == n * p2(s0)) by (nonlinear_arith)
            requires
                nj == n * p2(j),
                p2(s0) == p2(j) * p2(sj),
        ;
    } else if b <= 53 {
        let k = (bj - 53) as nat;
        let s0 = (53 - b) as nat;
        assert(j == k + s0);
        lemma_p2_add(s0, k);
        lemma_p2_pos(k);
        let q = n * p2(s0);
        assert(nj == q * p2(k)) by (nonlinear_arith)
            requires
                nj == n * p2(j),
                p2(j) == p2(s0) * p2(k),
                q == n * p2(s0),
        ;
        lemma_fundamental_div_mod_converse(nj as int, p2(k) as int, q as int, 0);
        assert(!rne_up(q, 0, p2(k)));
        lemma_p2_add(52, k);
        lemma_p2_add(53, k);
        assert(q < P53) by {
            lemma_p2_consts();
            lemma_p2_pos(s0);
            lemma_p2_add(b, s0);
            assert(b + s0 == 53);
            assert(q < hi * p2(s0)) by (nonlinear_arith)
                requires
                    q == n * p2(s0),
                    n < hi,
                    p2(s0) >= 1,
            ;
        }
    } else {
        let k = (b - 53) as nat;
        let kj = (bj - 53) as nat;
        assert(kj == k + j);
        lemma_p2_add(k, j);
        lemma_p2_pos(k);
        let d = p2(k);
        let dj = p2(kj);
        assert(dj == d * p2(j));
        let q = n / d;
        let r = n % d;
        lemma_fundamental_div_mod(n as int, d as int);
        lemma_mod_pos_bound(n as int, d as int);
        assert(nj == q * dj + r * p2(j)) by (nonlinear_arith)
            requires
                n == d * q + r,
                nj == n * p2(j),
                dj == d * p2(j),
        ;
        assert(r * p2(j) < dj) by (nonlinear_arith)
            requires
                r < d,
                dj == d * p2(j),
                p2(j) >= 1,
        ;
        lemma_fundamental_div_mod_converse(nj as int, dj as int, q as int, (r * p2(j)) as int);
        assert(rne_up(q, r * p2(j), dj) == rne_up(q, r, d)) by (nonlinear_arith)
            requires
                dj == d * p2(j),
                p2(j) >= 1,
        ;
    }
}

/// A positive number rounded, in units of `2^(e - 53)`: `n * 2^53` when it
/// fits 53 bits, else its rounded top 53 bits shifted back into place.
pub open spec fn rounded_units(n: nat, e: int) -> nat {
    if blen(n) <= 53 {
        (n * P53) as nat
    } else {
        let k = (blen(n) - 53) as nat;
        let q = n / p2(k);
        let r = n % p2(k);
        ((if rne_up(q, r, p2(k)) {
            q + 1
        } else {
            q
        }) * p2(k + 53)) as nat
    }
}

proof fn lemma_rounded_units(n: nat, e: int)
    requires
        0 < n < p2(0x400),
        -0x1000 <= e <= 0x1000,
    ensures
        round_bits(n, e).e >= e - 53,
        scaled(round_bits(n, e), e - 53) == rounded_units(n, e),
{
    lemma_p2_consts();
    lemma_round_wf(n, e);
    lemma_blen_bounds(n);
    lemma_blen_le(n, 0x400);
    let b = blen(n);
    let r = round_bits(n, e);
    if b <= 53 {
        let s0 = (53 - b) as nat;
        lemma_p2_add(b, s0);
        lemma_p2_pos(s0);
        assert(n * p2(s0) < p2(b) * p2(s0)) by (nonlinear_arith)
            requires
                n < p2(b),
                p2(s0) >= 1,
        ;
        assert(r.m == n * p2(s0) && r.e == e - s0);
        let w = (53 - s0) as nat;
        lemma_p2_add(s0, w);
        assert(s0 + w == 53);
        assert(scaled(r, e - 53) == r.m * p2(w));
        assert(r.m * p2(w) == n * P53) by (nonlinear_arith)
            requires
                r.m == n * p2(s0),
                P53 == p2(s0) * p2(w),
        ;
    } else {
        let k = (b - 53) as nat;
        let d = p2(k);
        lemma_p2_pos(k);
        lemma_p2_add(52, k);
        lemma_p2_add(53, k);
        assert(52 + k == (b - 1) as nat);
        assert(53 + k == b);
        let q = n / d;
        let rr = n % d;
        lemma_div_range(n, d, P52 as nat, P53 as nat);
        let q2 = if rne_up(q, rr, d) {
            q + 1
        } else {
            q
        };
        if q2 == P53 {
            assert(r.m == P52 && r.e == e + k + 1);
            lemma_p2_add(k + 53, 1);
            assert(p2(1) == 2) by {
                reveal_with_fuel(p2, 2);
            }
            assert(scaled(r, e - 53) == P52 * p2(k + 54));
            assert(P52 * p2(k + 54) == P53 * p2(k + 53)) by (nonlinear_arith)
                requires
                    p2(k + 54) == p2(k + 53) * 2,
                    P53 == 2 * P52,
            ;
        } else {
            assert(r.m == q2 && r.e == e + k);
            assert(scaled(r, e - 53) == q2 * p2(k + 53));
        }
    }
}

/// Rounding keeps order: at one exponent, a larger number never rounds to a
/// smaller value.
pub proof fn lemma_round_mono(n1: nat, n2: nat, e: int)
    requires
        n1 <= n2 < p2(0x400),
        -0x1000 <= e <= 0x1000,
    ensures
        le(round_bits(n1, e), round_bits(n2, e)),
{
    lemma_p2_consts();
    lemma_round_wf(n1, e);
    lemma_round_wf(n2, e);
    let r1 = round_bits(n1, e);
    let r2 = round_bits(n2, e);
    if n1 == 0 {
        crate::sfloat::lemma_le_zero(r2);
        return;
    }
    lemma_rounded_units(n1, e);
    lemma_rounded_units(n2, e);
    crate::sfloat::lemma_le_at(r1, r2, e - 53);
    lemma_blen_bounds(n1);
    lemma_blen_bounds(n2);
    let b1 = blen(n1);
    let b2 = blen(n2);
    if b1 > b2 {
        lemma_p2_le(b2, (b1 - 1) as nat);
        assert(false);
    }
    let u1 = rounded_units(n1, e);
    let u2 = rounded_units(n2, e);
    lemma_p2_add(53, 53);
    if b2 <= 53 {
        assert(n1 * P53 <= n2 * P53) by (nonlinear_arith)
            requires
                n1 <= n2,
        ;
    } else if b1 <= 53 {
        let k2 = (b2 - 53) as nat;
        lemma_p2_add(52, k2);
        lemma_p2_add(53, k2);
        assert(52 + k2 == (b2 - 1) as nat);
        lemma_p2_pos(k2);
        lemma_div_range(n2, p2(k2), P52 as nat, P53 as nat);
        lemma_p2_le(1, k2);
        assert(p2(1) == 2) by {
            reveal_with_fuel(p2, 2);
        }
        lemma_p2_add(52, 54);
        lemma_p2_add(1, 53);
        lemma_p2_le(54, k2 + 53);
        lemma_p2_le(b1, 53);
        assert(u2 >= (n2 / p2(k2)) * p2(k2 + 53)) by {
            let q = n2 / p2(k2);
            let qq = if rne_up(q, n2 % p2(k2), p2(k2)) {
                q + 1
            } else {
                q
            };
            assert(qq * p2(k2 + 53) >= q * p2(k2 + 53)) by (nonlinear_arith)
                requires
                    qq >= q,
            ;
        }
        assert(u1 < p2(106)) by (nonlinear_arith)
            requires
                u1 == n1 * P53,
                n1 < p2(b1),
                p2(b1) <= P53,
                p2(106) == P53 * P53,
        ;
        assert(u2 >= p2(106)) by (nonlinear_arith)
            requires
                u2 >= (n2 / p2(k2)) * p2(k2 + 53),
                n2 / p2(k2) >= P52,
                p2(k2 + 53) >= p2(54),
                p2(106) == P52 * p2(54),
        ;
    } else {
        let k1 = (b1 - 53) as nat;
        let k2 = (b2 - 53) as nat;
        let d1 = p2(k1);
        let d2 = p2(k2);
        lemma_p2_pos(k1);
        lemma_p2_pos(k2);
        lemma_p2_add(52, k1);
        lemma_p2_add(53, k1);
        lemma_p2_add(52, k2);
        lemma_p2_add(53, k2);
        assert(52 + k1 == (b1 - 1) as nat);
        assert(52 + k2 == (b2 - 1) as nat);
        lemma_div_range(n1, d1, P52 as nat, P53 as nat);
        lemma_div_range(n2, d2, P52 as nat, P53 as nat);
        let q1 = n1 / d1;
        let q2 = n2 / d2;
        let x1 = n1 % d1;
        let x2 = n2 % d2;
        let qq1 = if rne_up(q1, x1, d1) {
            q1 + 1
        } else {
            q1
        };
        let qq2 = if rne_up(q2, x2, d2) {
            q2 + 1
        } else {
            q2
        };
        assert(u1 == qq1 * p2(k1 + 53) && u2 == qq2 * p2(k2 + 53));
        if k1 < k2 {
            lemma_p2_le(k1 + 106, k2 + 105);
            lemma_p2_add(53, k1 + 53);
            lemma_p2_add(52, k2 + 53);
            assert(qq1 <= P53);
            assert(u1 <= u2) by (nonlinear_arith)
                requires
                    u1 == qq1 * p2(k1 + 53),
                    u2 == qq2 * p2(k2 + 53),
                    qq1 <= P53,
                    qq2 >= P52,
                    p2(k1 + 106) == P53 * p2(k1 + 53),
                    p2(k2 + 105) == P52 * p2(k2 + 53),
                    p2(k1 + 106) <= p2(k2 + 105),
            ;
        } else {
            assert(k1 == k2);
            lemma_fundamental_div_mod(n1 as int, d1 as int);
            lemma_fundamental_div_mod(n2 as int, d1 as int);
            lemma_mod_pos_bound(n1 as int, d1 as int);
            lemma_mod_pos_bound(n2 as int, d1 as int);
            assert(q1 <= q2) by (nonlinear_arith)
                requires
                    n1 == d1 * q1 + x1,
                    n2 == d1 * q2 + x2,
                    x1 < d1,
                    0 <= x2 < d1,
                    0 <= x1,
                    n1 <= n2,
                    d1 >= 1,
            ;
            if q1 == q2 {
                assert(x1 <= x2);
            }
            assert(qq1 <= qq2);
            assert(u1 <= u2) by (nonlinear_arith)
                requires
                    u1 == qq1 * p2(k1 + 53),
                    u2 == qq2 * p2(k1 + 53),
                    qq1 <= qq2,
            ;
        }
    }
}

/// A well-formed value rounds to itself.
pub proof fn lemma_round_exact(x: Dbl)
    requires
        x.wf(),
    ensures
        round_bits(x.m as nat, x.e as int) == x,
{
    if x.m != 0 {
        lemma_p2_consts();
        lemma_blen_unique(x.m as nat, 53);
        lemma_times_one(x.m as nat);
    }
}

/// An integer times a value, rounded: the same as rounding `n * x.m` at
/// `x`'s exponent (the integer converts exactly).
pub proof fn lemma_mul_int(n: nat, x: Dbl)
    requires
        n < P53,
        x.wf(),
        -0x800 <= x.e <= 0x800,
    ensures
        mul_spec(round_bits(n, 0), x) == round_bits(n * (x.m as nat), x.e as int),
{
    if n == 0 {
        assert(round_bits(0, 0).m == 0);
        assert(0 * x.m == 0);
    } else {
        lemma_int_exact(n);
        let k = (53 - blen(n)) as nat;
        let c = round_bits(n, 0);
        assert(c.m * x.m == (n * x.m) * p2(k)) by (nonlinear_arith)
            requires
                c.m == n * p2(k),
        ;
        lemma_round_scale(n * (x.m as nat), x.e as int, k);
    }
}

/// A sum rounds the same from any common base below both exponents.
pub proof fn lemma_add_at(x: Dbl, y: Dbl, b: int)
    requires
        x.wf(),
        y.wf(),
        -0x800 <= b,
        b <= x.e,
        b <= y.e,
        x.e <= 0x800,
        y.e <= 0x800,
    ensures
        add_spec(x, y) == round_bits(scaled(x, b) + scaled(y, b), b),
{
    if x.is_zero() {
        let j = (y.e - b) as nat;
        lemma_round_exact(y);
        lemma_round_scale(y.m as nat, y.e as int, j);
        assert(scaled(x, b) == 0);
    } else if y.is_zero() {
        let j = (x.e - b) as nat;
        lemma_round_exact(x);
        lemma_round_scale(x.m as nat, x.e as int, j);
        assert(scaled(y, b) == 0);
    } else {
        let b0 = if x.e <= y.e {
            x.e as int
        } else {
            y.e as int
        };
        let j = (b0 - b) as nat;
        lemma_p2_add((x.e - b0) as nat, j);
        lemma_p2_add((y.e - b0) as nat, j);
        assert((x.e - b0) as nat + j == (x.e - b) as nat);
        assert((y.e - b0) as nat + j == (y.e - b) as nat);
        let sx = scaled(x, b0);
        let sy = scaled(y, b0);
        assert((sx + sy) * p2(j) == scaled(x, b) + scaled(y, b)) by (nonlinear_arith)
            requires
                sx == x.m * p2((x.e - b0) as nat),
                sy == y.m * p2((y.e - b0) as nat),
                scaled(x, b) == x.m * p2((x.e - b) as nat),
                scaled(y, b) == y.m * p2((y.e - b) as nat),
                p2((x.e - b) as nat) == p2((x.e - b0) as nat) * p2(j),
                p2((y.e - b) as nat) == p2((y.e - b0) as nat) * p2(j),
        ;
        lemma_round_scale((sx + sy) as nat, b0, j);
    }
}

/// Rounding gives a well-formed value, at an exponent no lower than
/// `e - 53`, for numbers of up to 1024 bits.
pub proof fn lemma_round_wf(n: nat, e: int)
    requires
        n < p2(0x400),
        -0x1000 <= e <= 0x1000,
    ensures
        round_bits(n, e).wf(),
        n > 0 ==> round_bits(n, e).e >= e - 53,
{
    if n > 0 {
        lemma_p2_consts();
        lemma_blen_bounds(n);
        lemma_blen_le(n, 0x400);
        let b = blen(n);
        if b <= 53 {
            let s0 = (53 - b) as nat;
            lemma_p2_add((b - 1) as nat, s0);
            lemma_p2_add(b, s0);
            assert((b - 1) as nat + s0 == 52);
            assert(b + s0 == 53);
            let lo = p2((b - 1) as nat);
            let hi = p2(b);
            let f = p2(s0);
            lemma_p2_pos(s0);
            assert(lo * f <= n * f < hi * f) by (nonlinear_arith)
                requires
                    lo <= n < hi,
                    f >= 1,
            ;
        } else {
            let k = (b - 53) as nat;
            lemma_p2_add(52, k);
            lemma_p2_add(53, k);
            assert(52 + k == (b - 1) as nat);
            assert(53 + k == b);
            lemma_p2_pos(k);
            lemma_div_range(n, p2(k), P52 as nat, P53 as nat);
        }
    }
}


/// Rounding a positive number keeps its exponent at least `e - 52`, and at
/// least `e` once the number has 53 binary digits.
pub proof fn lemma_round_bits_e_lo(n: nat, e: int)
    requires
        n > 0,
        n < p2(0x400),
        -0x1000 <= e <= 0x1000,
    ensures
        round_bits(n, e).e >= e - 52,
        n >= P52 ==> round_bits(n, e).e >= e,
{
    lemma_p2_consts();
    lemma_blen_bounds(n);
    let b = blen(n);
    if b <= 53 {
        if n >= P52 && b < 53 {
            lemma_p2_le(b, 52);
        }
    } else {
        lemma_blen_le(n, 0x400);
    }
}

/// The sum of two magnitudes whose exponents lie between `-170` and `0`,
/// rounded: within `2^-45` of the exact sum when that is below `2^9`.
pub proof fn lemma_add_units_wide(x: Dbl, y: Dbl)
    requires
        x.wf(),
        y.wf(),
        -170 <= x.e <= 0,
        -170 <= y.e <= 0,
        units(x) + units(y) < p2(239),
    ensures
        add_spec(x, y).wf(),
        add_spec(x, y).e >= -230,
        units(add_spec(x, y)) <= units(x) + units(y) + p2(185),
        units(x) + units(y) <= units(add_spec(x, y)) + p2(185),
{
    lemma_p2_pos(185);
    if x.is_zero() {
        assert(units(x) == 0) by (nonlinear_arith)
            requires
                x.m == 0,
                units(x) == x.m * p2((x.e + 230) as nat),
        ;
    } else if y.is_zero() {
        assert(units(y) == 0) by (nonlinear_arith)
            requires
                y.m == 0,
                units(y) == y.m * p2((y.e + 230) as nat),
        ;
    } else {
        lemma_p2_consts();
        let b = if x.e <= y.e {
            x.e as int
        } else {
            y.e as int
        };
        let dx = (x.e - b) as nat;
        let dy = (y.e - b) as nat;
        let wb = (b + 230) as nat;
        let n = scaled(x, b) + scaled(y, b);
        lemma_p2_add(dx, wb);
        lemma_p2_add(dy, wb);
        assert(dx + wb == (x.e + 230) as nat);
        assert(dy + wb == (y.e + 230) as nat);
        assert(n * p2(wb) == units(x) + units(y)) by (nonlinear_arith)
            requires
                n == x.m * p2(dx) + y.m * p2(dy),
                units(x) == x.m * p2((x.e + 230) as nat),
                units(y) == y.m * p2((y.e + 230) as nat),
                p2((x.e + 230) as nat) == p2(dx) * p2(wb),
                p2((y.e + 230) as nat) == p2(dy) * p2(wb),
        ;
        lemma_round_err(n as nat, b);
        lemma_p2_le(dx, 170);
        lemma_p2_le(dy, 170);
        lemma_p2_add(53, 170);
        lemma_p2_add(223, 1);
        lemma_p2_le(224, 0x400);
        assert(p2(1) == 2) by {
            reveal_with_fuel(p2, 2);
        }
        assert(x.m * p2(dx) <= P53 * p2(170)) by (nonlinear_arith)
            requires
                x.m < P53,
                p2(dx) <= p2(170),
        ;
        assert(y.m * p2(dy) <= P53 * p2(170)) by (nonlinear_arith)
            requires
                y.m < P53,
                p2(dy) <= p2(170),
        ;
        assert(n <= p2(224));
        lemma_p2_lt(224, 0x400);
        lemma_round_wf(n as nat, b);
    }
}


/// Two well-formed values each at most the other are the same value.
pub proof fn lemma_le_antisym(x: Dbl, y: Dbl)
    requires
        x.wf(),
        y.wf(),
        le(x, y),
        le(y, x),
    ensures
        x == y,
{
    lemma_p2_consts();
    if x.is_zero() && y.is_zero() {
    } else if x.is_zero() || y.is_zero() {
        let (z, n) = if x.is_zero() {
            (x, y)
        } else {
            (y, x)
        };
        let b = if n.e <= 0 {
            n.e as int
        } else {
            0
        };
        let k = (n.e - b) as nat;
        lemma_p2_pos(k);
        assert(scaled(n, b) == n.m * p2(k));
        assert(n.m * p2(k) >= n.m) by (nonlinear_arith)
            requires
                p2(k) >= 1,
        ;
        assert(scaled(z, b) == 0) by {
            assert(z.m == 0);
            assert(0 * p2((z.e - b) as nat) == 0);
        }
    } else if x.e < y.e {
        lemma_le_by_exponent(x, y);
    } else if y.e < x.e {
        lemma_le_by_exponent(y, x);
    } else {
        lemma_times_one(x.m as nat);
        lemma_times_one(y.m as nat);
    }
}

} // verus!
