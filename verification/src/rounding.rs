//! Rounding an exact value to the nearest binary64 number.
//!
//! The exact value is a fraction `num / den` of units of `2^-1074`, zero or
//! above. It rounds to the number at or above zero, infinity included, whose
//! unit count lies nearest to it; where two lie equally near, to the one
//! whose encoding is even. Infinity stands where `2^1024` would, so that a
//! value rounds to it from halfway above the largest finite number on.

use vstd::prelude::*;
use vstd::arithmetic::div_mod::{lemma_fundamental_div_mod, lemma_mod_bound};
use vstd::arithmetic::power2::{
    pow2,
    lemma_pow2_pos,
    lemma_pow2_adds,
    lemma_pow2_unfold,
    lemma_pow2_strictly_increases,
    lemma2_to64,
    lemma2_to64_rest,
};
use crate::binary64::{units, lemma_units_order, lemma_encoding_of, encoding_of, INFINITY, HIDDEN_BIT};

verus! {

/// The distance between two integers.
pub open spec fn gap(a: int, b: int) -> int {
    if a >= b {
        a - b
    } else {
        b - a
    }
}

/// Whether `r` is to be preferred to `c` as the rounding of `num / den`
/// units: it lies nearer, or as near and has the even encoding.
pub open spec fn preferred(num: int, den: int, r: u64, c: u64) -> bool {
    let dr = gap(num, units(r) * den);
    let dc = gap(num, units(c) * den);
    dr < dc || (dr == dc && (r == c || r % 2 == 0))
}

/// Whether `r` is the rounding of `num / den` units: an encoding of a
/// number at or above zero that is preferred to every other.
pub open spec fn is_nearest(num: int, den: int, r: u64) -> bool {
    &&& r <= INFINITY
    &&& forall|c: u64| c <= INFINITY ==> #[trigger] preferred(num, den, r, c)
}

/// The rounding of `num / den` units.
pub open spec fn rounded(num: int, den: int) -> u64 {
    choose|r: u64| is_nearest(num, den, r)
}

/// A value has one rounding only.
pub proof fn lemma_nearest_is_one(num: int, den: int, r: u64, s: u64)
    requires
        den > 0,
        is_nearest(num, den, r),
        is_nearest(num, den, s),
    ensures
        r == s,
{
    if r != s {
        assert(preferred(num, den, r, s));
        assert(preferred(num, den, s, r));
        let (lo, hi) = if r < s {
            (r, s)
        } else {
            (s, r)
        };
        let c = (lo + 1) as u64;
        assert(lo % 2 == 0 && hi % 2 == 0);
        assert(lo < c < hi);
        lemma_units_order(lo, c);
        lemma_units_order(c, hi);
        let a = units(lo) as int;
        let b = units(c) as int;
        let d = units(hi) as int;
        assert(a * den < b * den && b * den < d * den) by (nonlinear_arith)
            requires
                a < b < d,
                den > 0,
        ;
        assert(preferred(num, den, lo, c));
    }
}

/// What is the rounding of a value is what [`rounded`] gives.
pub proof fn lemma_rounded(num: int, den: int, r: u64)
    requires
        den > 0,
        is_nearest(num, den, r),
    ensures
        rounded(num, den) == r,
{
    lemma_nearest_is_one(num, den, r, rounded(num, den));
}

/// The encoding up to `n` that is preferred to all others up to `n`.
pub open spec fn best_upto(num: int, den: int, n: u64) -> u64
    decreases n,
{
    if n == 0 {
        0
    } else {
        let b = best_upto(num, den, (n - 1) as u64);
        if preferred(num, den, n, b) {
            n
        } else {
            b
        }
    }
}

/// [`best_upto`] is preferred to every encoding up to `n`.
pub proof fn lemma_best_upto(num: int, den: int, n: u64)
    requires
        den > 0,
        n <= INFINITY,
    ensures
        best_upto(num, den, n) <= n,
        forall|c: u64| c <= n ==> #[trigger] preferred(num, den, best_upto(num, den, n), c),
    decreases n,
{
    if n > 0 {
        let m = (n - 1) as u64;
        let b = best_upto(num, den, m);
        lemma_best_upto(num, den, m);
        assert(preferred(num, den, b, m));
        assert(preferred(num, den, b, b));
        if !preferred(num, den, n, b) {
            lemma_units_order(b, m);
            lemma_units_order(m, n);
            lemma_units_order(b, n);
            let ub = units(b) as int;
            let um = units(m) as int;
            let un = units(n) as int;
            assert(um * den < un * den) by (nonlinear_arith)
                requires
                    um < un,
                    den > 0,
            ;
            if b < m {
                assert(ub * den < um * den) by (nonlinear_arith)
                    requires
                        ub < um,
                        den > 0,
                ;
            }
            assert(preferred(num, den, b, n));
        }
        let r = best_upto(num, den, n);
        assert forall|c: u64| c <= n implies #[trigger] preferred(num, den, r, c) by {
            if c < n {
                assert(preferred(num, den, b, c));
            }
        }
    }
}

/// Every value has a rounding, and [`rounded`] gives it.
pub proof fn lemma_nearest_exists(num: int, den: int)
    requires
        den > 0,
    ensures
        is_nearest(num, den, rounded(num, den)),
        rounded(num, den) <= INFINITY,
{
    lemma_best_upto(num, den, INFINITY);
    assert(is_nearest(num, den, best_upto(num, den, INFINITY)));
}

/// Rounding keeps the order: of two values the larger does not round to
/// the smaller number.
pub proof fn lemma_rounded_rises(n1: int, d1: int, n2: int, d2: int)
    requires
        d1 > 0,
        d2 > 0,
        n1 * d2 <= n2 * d1,
    ensures
        rounded(n1, d1) <= rounded(n2, d2),
{
    lemma_nearest_exists(n1, d1);
    lemma_nearest_exists(n2, d2);
    let r1 = rounded(n1, d1);
    let r2 = rounded(n2, d2);
    if r1 > r2 {
        lemma_units_order(r2, r1);
        let u1 = units(r1) as int;
        let u2 = units(r2) as int;
        assert(preferred(n1, d1, r1, r2));
        assert(preferred(n2, d2, r2, r1));
        assert(u2 * d1 < u1 * d1 && u2 * d2 < u1 * d2) by (nonlinear_arith)
            requires
                u2 < u1,
                d1 > 0,
                d2 > 0,
        ;
        assert(2 * n1 >= (u1 + u2) * d1) by (nonlinear_arith)
            requires
                gap(n1, u1 * d1) <= gap(n1, u2 * d1),
                u2 * d1 < u1 * d1,
        ;
        assert(2 * n2 <= (u1 + u2) * d2) by (nonlinear_arith)
            requires
                gap(n2, u2 * d2) <= gap(n2, u1 * d2),
                u2 * d2 < u1 * d2,
        ;
        assert(2 * n1 == (u1 + u2) * d1 && 2 * n2 == (u1 + u2) * d2) by (nonlinear_arith)
            requires
                2 * n1 >= (u1 + u2) * d1,
                2 * n2 <= (u1 + u2) * d2,
                n1 * d2 <= n2 * d1,
                d1 > 0,
                d2 > 0,
        ;
        assert(gap(n1, u1 * d1) == gap(n1, u2 * d1)) by (nonlinear_arith)
            requires
                2 * n1 == (u1 + u2) * d1,
        ;
        assert(gap(n2, u2 * d2) == gap(n2, u1 * d2)) by (nonlinear_arith)
            requires
                2 * n2 == (u1 + u2) * d2,
        ;
        assert(r1 % 2 == 0 && r2 % 2 == 0);
        let c = (r2 + 1) as u64;
        lemma_units_order(r2, c);
        lemma_units_order(c, r1);
        let uc = units(c) as int;
        assert(u2 * d1 < uc * d1 && uc * d1 < u1 * d1) by (nonlinear_arith)
            requires
                u2 < uc < u1,
                d1 > 0,
        ;
        assert(preferred(n1, d1, r1, c));
        assert(false);
    }
}

/// A value at or beyond the unit count of infinity rounds to infinity.
pub proof fn lemma_rounds_to_infinity(num: int, den: int)
    requires
        den > 0,
        num >= units(INFINITY) * den,
    ensures
        is_nearest(num, den, INFINITY),
{
    assert forall|c: u64| c <= INFINITY implies #[trigger] preferred(num, den, INFINITY, c) by {
        lemma_units_order(c, INFINITY);
        let a = units(c) as int;
        let b = units(INFINITY) as int;
        if c < INFINITY {
            assert(a * den < b * den) by (nonlinear_arith)
                requires
                    a < b,
                    den > 0,
            ;
        }
    }
}

/// A value below a quarter of a unit rounds to zero.
pub proof fn lemma_rounds_to_zero(num: int, den: int)
    requires
        den > 0,
        0 <= 4 * num < den,
    ensures
        is_nearest(num, den, 0),
{
    assert forall|c: u64| c <= INFINITY implies #[trigger] preferred(num, den, 0, c) by {
        lemma_units_order(c, 0);
        lemma_units_order(0, 0);
        let a = units(c) as int;
        assert(units(0) == 0);
        assert(units(0) * den == 0);
        if c > 0 {
            assert(a * den >= den) by (nonlinear_arith)
                requires
                    a >= 1,
                    den > 0,
            ;
        }
    }
}

/// A number's own unit count rounds to the number.
pub proof fn lemma_rounds_to_itself(r: u64)
    requires
        r <= INFINITY,
    ensures
        is_nearest(units(r) as int, 1, r),
{
    assert forall|c: u64| c <= INFINITY implies #[trigger] preferred(units(r) as int, 1, r, c) by {
        lemma_units_order(c, r);
    }
}

/// Between two neighbouring numbers a value rounds to the nearer one, and
/// from halfway to the even one.
///
/// The value is given scaled by `b`, at `l + x` where the lower neighbour
/// `lo` lies at `l` and the upper at `l + w`.
pub proof fn lemma_rounds_between(num: int, den: int, b: int, lo: u64, w: int, x: int, up: bool)
    requires
        den > 0,
        b > 0,
        lo < INFINITY,
        0 <= x < w,
        num * b == units(lo) * den * b + x,
        units((lo + 1) as u64) * den * b == units(lo) * den * b + w,
        up ==> 2 * x >= w && (2 * x == w ==> lo % 2 == 1),
        !up ==> 2 * x <= w && (2 * x == w ==> lo % 2 == 0),
    ensures
        is_nearest(
            num,
            den,
            if up {
                (lo + 1) as u64
            } else {
                lo
            },
        ),
{
    let hi = (lo + 1) as u64;
    let r = if up {
        hi
    } else {
        lo
    };
    let l = units(lo) * den * b;
    assert forall|c: u64| c <= INFINITY implies #[trigger] preferred(num, den, r, c) by {
        lemma_units_order(c, lo);
        lemma_units_order(c, hi);
        let uc = units(c) as int;
        let ul = units(lo) as int;
        let uh = units(hi) as int;
        let db = den * b;
        assert(ul * den * b == ul * db && uh * den * b == uh * db && uc * den * b == uc * db)
            by (nonlinear_arith)
            requires
                db == den * b,
        ;
        assert(db > 0) by (nonlinear_arith)
            requires
                db == den * b,
                den > 0,
                b > 0,
        ;
        if c <= lo {
            assert(uc * db <= ul * db) by (nonlinear_arith)
                requires
                    uc <= ul,
                    db > 0,
            ;
            if c < lo {
                assert(uc * db < ul * db) by (nonlinear_arith)
                    requires
                        uc < ul,
                        db > 0,
                ;
            }
        } else {
            assert(uc * db >= uh * db) by (nonlinear_arith)
                requires
                    uc >= uh,
                    db > 0,
            ;
            if c > hi {
                assert(uc * db > uh * db) by (nonlinear_arith)
                    requires
                        uc > uh,
                        db > 0,
                ;
            }
        }
        let dr = gap(num, units(r) * den);
        let dc = gap(num, units(c) * den);
        assert(gap(num * b, units(r) * den * b) == dr * b && gap(num * b, units(c) * den * b) == dc
            * b) by (nonlinear_arith)
            requires
                dr == gap(num, units(r) * den),
                dc == gap(num, units(c) * den),
                b > 0,
        ;
        let sr = gap(num * b, units(r) * den * b);
        let sc = gap(num * b, units(c) * den * b);
        assert(sr <= sc);
        assert(sr == sc ==> r == c || r % 2 == 0);
        assert(dr <= dc && (dr == dc <==> sr == sc)) by (nonlinear_arith)
            requires
                sr == dr * b,
                sc == dc * b,
                sr <= sc,
                b > 0,
        ;
    }
}

/// Whether `num / den` units is the value that `t`, `up`, `down` and
/// `sticky` describe: it lies from `t * 2^(up - down)` units up to, but not
/// at, one more than `t` times as much, and at the lower end of that span
/// exactly when `sticky` is false.
pub open spec fn brackets(num: int, den: int, t: nat, up: nat, down: nat, sticky: bool) -> bool {
    &&& den > 0
    &&& t * pow2(up) * den <= num * pow2(down)
    &&& num * pow2(down) < (t + 1) * pow2(up) * den
    &&& sticky <==> t * pow2(up) * den != num * pow2(down)
}

/// The encoding that keeps of `t` what stands above its lowest `k` bits,
/// as a significand shifted up by `places`, and that goes one encoding up
/// where the bits dropped, with what `sticky` adds below them, come to more
/// than half of the last place kept, or to half of it beside an odd
/// significand.
pub open spec fn shifted(t: nat, k: nat, places: nat, sticky: bool) -> u64 {
    let q = t / pow2(k);
    let rem = t % pow2(k);
    let lo = encoding_of(places, q);
    if 2 * rem > pow2(k) || (2 * rem == pow2(k) && (sticky || q % 2 == 1)) {
        (lo + 1) as u64
    } else {
        lo
    }
}

/// Dropping the lowest `k` bits in the way of [`shifted`] rounds the value
/// that was described, provided that what is kept is a significand: below
/// `2^53`, and with its hidden bit wherever `places` is not zero.
pub proof fn lemma_shifted_is_nearest(
    num: int,
    den: int,
    t: nat,
    up: nat,
    down: nat,
    sticky: bool,
    k: nat,
)
    requires
        brackets(num, den, t, up, down, sticky),
        k >= down,
        up + k - down <= 2045,
        t < pow2(k) * (2 * HIDDEN_BIT),
        up + k - down == 0 || t >= pow2(k) * HIDDEN_BIT,
        sticky ==> k >= 1,
    ensures
        is_nearest(num, den, shifted(t, k, (up + k - down) as nat, sticky)),
{
    let places = (up + k - down) as nat;
    let e = pow2(k) as int;
    let a = pow2(up) as int;
    let b = pow2(down) as int;
    let pp = pow2(places) as int;
    let q = (t / pow2(k)) as int;
    let rem = (t % pow2(k)) as int;
    let ti = t as int;
    lemma_pow2_pos(k);
    lemma_pow2_pos(up);
    lemma_pow2_pos(down);
    lemma_pow2_pos(places);
    lemma_fundamental_div_mod(ti, e);
    lemma_mod_bound(ti, e);
    assert(ti == e * q + rem);
    assert(0 <= q < 2 * 0x10_0000_0000_0000) by (nonlinear_arith)
        requires
            ti == e * q + rem,
            0 <= rem < e,
            0 <= ti < e * (2 * 0x10_0000_0000_0000),
    ;
    assert(places == 0 || q >= 0x10_0000_0000_0000) by (nonlinear_arith)
        requires
            ti == e * q + rem,
            0 <= rem < e,
            places == 0 || ti >= e * 0x10_0000_0000_0000,
    ;
    lemma_encoding_of(places, q as nat);
    lemma_encoding_of(places, (q + 1) as nat);
    let lo = encoding_of(places, q as nat);
    assert(lo < INFINITY);
    assert(encoding_of(places, (q + 1) as nat) == lo + 1);
    lemma_pow2_adds(places, down);
    lemma_pow2_adds(up, k);
    assert(pp * b == a * e);
    let g = a * den;
    assert(g > 0) by (nonlinear_arith)
        requires
            g == a * den,
            a > 0,
            den > 0,
    ;
    let w = e * g;
    let l = units(lo) * den * b;
    assert(l == q * w) by (nonlinear_arith)
        requires
            l == (q * pp) * den * b,
            pp * b == a * e,
            w == e * (a * den),
    ;
    assert(units((lo + 1) as u64) * den * b == l + w) by (nonlinear_arith)
        requires
            units((lo + 1) as u64) == (q + 1) * pp,
            l == q * w,
            pp * b == a * e,
            w == e * (a * den),
    ;
    let x = num * b - l;
    assert(ti * a * den == l + rem * g) by (nonlinear_arith)
        requires
            ti == e * q + rem,
            l == q * w,
            w == e * g,
            g == a * den,
    ;
    assert((ti + 1) * a * den == l + (rem + 1) * g) by (nonlinear_arith)
        requires
            ti == e * q + rem,
            l == q * w,
            w == e * g,
            g == a * den,
    ;
    assert(rem * g <= x < (rem + 1) * g);
    assert(sticky <==> x != rem * g);
    assert((rem + 1) * g <= w) by (nonlinear_arith)
        requires
            rem + 1 <= e,
            w == e * g,
            g > 0,
    ;
    let bump = 2 * rem > e || (2 * rem == e && (sticky || q % 2 == 1));
    assert(lo % 2 == q % 2) by {
        assert(lo == places * 0x10_0000_0000_0000 + q);
        assert((places * 0x10_0000_0000_0000) % 2 == 0) by (nonlinear_arith)
            requires
                places >= 0,
        ;
    }
    if k >= 1 {
        lemma_pow2_unfold(k);
        assert(e % 2 == 0);
    }
    if bump {
        if 2 * rem > e {
            assert(2 * x > w) by (nonlinear_arith)
                requires
                    x >= rem * g,
                    2 * rem >= e + 1,
                    w == e * g,
                    g > 0,
            ;
        } else if sticky {
            assert(2 * x > w) by (nonlinear_arith)
                requires
                    x > rem * g,
                    2 * rem == e,
                    w == e * g,
            ;
        } else {
            assert(2 * x == w) by (nonlinear_arith)
                requires
                    x == rem * g,
                    2 * rem == e,
                    w == e * g,
            ;
        }
    } else {
        if 2 * rem == e {
            assert(2 * x == w) by (nonlinear_arith)
                requires
                    x == rem * g,
                    2 * rem == e,
                    w == e * g,
            ;
        } else if sticky {
            assert(2 * x < w) by (nonlinear_arith)
                requires
                    x < (rem + 1) * g,
                    2 * (rem + 1) <= e,
                    w == e * g,
                    g > 0,
            ;
        } else {
            assert(2 * x < w) by (nonlinear_arith)
                requires
                    x == rem * g,
                    2 * rem + 1 <= e,
                    w == e * g,
                    g > 0,
            ;
        }
    }
    lemma_rounds_between(num, den, b, lo, w, x, bump);
}

/// `2^120`: the bound below which [`round_to_nearest`] takes its `t`.
pub const WIDE: u128 = 0x100_0000_0000_0000_0000_0000_0000_0000;

/// The powers of two that bound the wide arithmetic.
pub proof fn lemma_wide_powers()
    ensures
        pow2(52) == HIDDEN_BIT,
        pow2(53) == 2 * HIDDEN_BIT,
        pow2(120) == WIDE,
        pow2(126) == 64 * WIDE,
{
    lemma2_to64();
    lemma2_to64_rest();
    lemma_pow2_adds(60, 60);
    lemma_pow2_adds(120, 6);
    assert(pow2(60) * pow2(60) == 0x100_0000_0000_0000_0000_0000_0000_0000) by (nonlinear_arith)
        requires
            pow2(60) == 0x1000_0000_0000_0000,
    ;
}

/// Computes `2^k` in 128 bits.
pub fn wide_power_of_two(k: u64) -> (r: u128)
    requires
        k <= 126,
    ensures
        r == pow2(k as nat),
{
    let mut r: u128 = 1;
    let mut i: u64 = 0;
    proof {
        lemma2_to64();
    }
    while i < k
        invariant
            i <= k <= 126,
            r == pow2(i as nat),
        decreases k - i,
    {
        proof {
            lemma_wide_powers();
            lemma_pow2_unfold((i + 1) as nat);
            if i + 1 < 126 {
                lemma_pow2_strictly_increases((i + 1) as nat, 126);
            }
        }
        r = r * 2;
        i = i + 1;
    }
    r
}

/// Counts the bits of `t`: the least `n` with `t < 2^n`.
pub fn bit_length(t: u128) -> (n: u64)
    requires
        t < WIDE,
    ensures
        n <= 120,
        t < pow2(n as nat),
        n > 0 ==> t >= pow2((n - 1) as nat),
{
    let mut n: u64 = 0;
    let mut p: u128 = 1;
    proof {
        lemma2_to64();
    }
    while p <= t
        invariant
            t < WIDE,
            n <= 120,
            p == pow2(n as nat),
            n > 0 ==> t >= pow2((n - 1) as nat),
        decreases 120 - n,
    {
        proof {
            lemma_wide_powers();
            lemma_pow2_unfold((n + 1) as nat);
            if n > 120 {
                lemma_pow2_strictly_increases(120, n as nat);
            }
            assert(n != 120);
        }
        p = p * 2;
        n = n + 1;
    }
    n
}

/// Rounds the value that `t`, `up`, `down` and `sticky` describe, which is
/// `t * 2^(up - down)` units or, with `sticky`, somewhat more and less than
/// one more than `t` times as much.
///
/// One of `up` and `down` is zero. What lies above an exponent of zero
/// comes with its hidden bit, and with `sticky` there are bits to spare
/// below the last place that can be kept.
pub fn round_to_nearest(t: u128, up: u64, down: u64, sticky: bool) -> (r: u64)
    requires
        t < WIDE,
        up == 0 || down == 0,
        up <= 4096,
        down <= 4096,
        up > 0 ==> t >= HIDDEN_BIT,
        sticky ==> t >= 4 * HIDDEN_BIT,
    ensures
        r <= INFINITY,
        forall|num: int, den: int| #[trigger]
            brackets(num, den, t as nat, up as nat, down as nat, sticky) ==> is_nearest(
                num,
                den,
                r,
            ),
{
    let n: u64 = bit_length(t);
    proof {
        lemma_wide_powers();
        lemma_pow2_pos(n as nat);
        lemma_pow2_pos(up as nat);
        lemma_pow2_pos(down as nat);
    }
    if down > n + 1 {
        proof {
            let pn = pow2(n as nat) as int;
            let pd = pow2(down as nat) as int;
            lemma_pow2_adds(n as nat, 2);
            lemma2_to64();
            if down > n + 2 {
                lemma_pow2_strictly_increases((n + 2) as nat, down as nat);
            }
            assert(pd >= 4 * pn);
            assert forall|num: int, den: int| #[trigger]
                brackets(num, den, t as nat, up as nat, down as nat, sticky) implies is_nearest(
                num,
                den,
                0,
            ) by {
                let ti = t as int;
                assert(pow2(0) == 1);
                assert((ti + 1) * 1 * den <= pn * den) by (nonlinear_arith)
                    requires
                        ti + 1 <= pn,
                        den > 0,
                ;
                assert(ti * 1 * den >= 0) by (nonlinear_arith)
                    requires
                        ti >= 0,
                        den > 0,
                ;
                assert(num >= 0 && 4 * num < den) by (nonlinear_arith)
                    requires
                        0 <= num * pd,
                        num * pd < pn * den,
                        pd >= 4 * pn,
                        pn > 0,
                        den > 0,
                ;
                lemma_rounds_to_zero(num, den);
            }
        }
        return 0;
    }
    let k0: u64 = if n > 53 {
        n - 53
    } else {
        0
    };
    let k: u64 = if k0 > down {
        k0
    } else {
        down
    };
    let places: u64 = up + k - down;
    proof {
        let e = pow2(k as nat) as int;
        let ti = t as int;
        lemma_pow2_pos(k as nat);
        lemma_pow2_adds(k as nat, 53);
        lemma_pow2_adds(k as nat, 52);
        if n < k + 53 {
            lemma_pow2_strictly_increases(n as nat, (k + 53) as nat);
        }
        assert(ti < e * (2 * HIDDEN_BIT));
        if places > 0 {
            if k0 == 0 {
                assert(k == down);
                assert(up > 0 && down == 0);
                lemma2_to64();
                assert(ti >= e * HIDDEN_BIT) by (nonlinear_arith)
                    requires
                        ti >= HIDDEN_BIT,
                        e == 1,
                ;
            } else {
                assert(k == k0);
                assert(n - 1 == k + 52);
                assert(ti >= e * HIDDEN_BIT);
            }
        }
        if sticky {
            lemma2_to64_rest();
            if n < 54 {
                lemma_pow2_strictly_increases(n as nat, 54);
            }
            assert(n >= 55);
        }
    }
    if places >= 2046 {
        proof {
            let e = pow2(k as nat) as int;
            let a = pow2(up as nat) as int;
            let ti = t as int;
            assert(down == 0 && up > 0);
            lemma_pow2_adds(up as nat, k as nat);
            if places > 2046 {
                lemma_pow2_strictly_increases(2046, places as nat);
            }
            lemma2_to64();
            crate::binary64::lemma_split_encoding(INFINITY, 2047, 0);
            assert(units(INFINITY) == HIDDEN_BIT * pow2(2046));
            let top = pow2(2046) as int;
            lemma_pow2_pos(2046);
            assert forall|num: int, den: int| #[trigger]
                brackets(num, den, t as nat, up as nat, down as nat, sticky) implies is_nearest(
                num,
                den,
                INFINITY,
            ) by {
                assert(ti * a * den >= (0x10_0000_0000_0000 * top) * den) by (nonlinear_arith)
                    requires
                        ti >= e * 0x10_0000_0000_0000,
                        a * e >= top,
                        e > 0,
                        a > 0,
                        den > 0,
                        top > 0,
                ;
                assert(num * 1 == num);
                lemma_rounds_to_infinity(num, den);
            }
        }
        return INFINITY;
    }
    let e: u128 = wide_power_of_two(k);
    let q: u128 = t / e;
    let rem: u128 = t % e;
    proof {
        let ei = e as int;
        let ti = t as int;
        lemma_fundamental_div_mod(ti, ei);
        lemma_mod_bound(ti, ei);
        assert(0 <= (q as int) < 2 * 0x10_0000_0000_0000) by (nonlinear_arith)
            requires
                ti == ei * (q as int) + (rem as int),
                0 <= (rem as int) < ei,
                0 <= ti < ei * (2 * 0x10_0000_0000_0000),
        ;
        if k + 1 < 126 {
            lemma_pow2_strictly_increases((k + 1) as nat, 126);
        }
        lemma_pow2_unfold((k + 1) as nat);
        assert(places * HIDDEN_BIT + q <= 2047 * 0x10_0000_0000_0000) by (nonlinear_arith)
            requires
                places <= 2045,
                q < 2 * 0x10_0000_0000_0000,
                HIDDEN_BIT == 0x10_0000_0000_0000,
        ;
    }
    let lo: u64 = places * HIDDEN_BIT + (q as u64);
    let bump: bool = 2 * rem > e || (2 * rem == e && (sticky || q % 2 == 1));
    let r: u64 = if bump {
        lo + 1
    } else {
        lo
    };
    proof {
        assert(r == shifted(t as nat, k as nat, places as nat, sticky));
        assert forall|num: int, den: int| #[trigger]
            brackets(num, den, t as nat, up as nat, down as nat, sticky) implies is_nearest(
            num,
            den,
            r,
        ) by {
            lemma_shifted_is_nearest(num, den, t as nat, up as nat, down as nat, sticky, k as nat);
        }
    }
    r
}

} // verus!
