//! Sums, products and quotients of binary64 numbers at or above zero, each
//! the exact result rounded to the nearest number.
//!
//! The operands are weights or NaNs. A NaN among them gives the NaN of
//! [`NAN`], whatever its own bits were; so do zero times infinity and
//! infinity over infinity.

use vstd::prelude::*;
use vstd::arithmetic::power2::{
    pow2,
    lemma_pow2_pos,
    lemma_pow2_adds,
    lemma_pow2_strictly_increases,
    lemma2_to64,
};
use crate::binary64::{
    ge,
    gt,
    same,
    lemma_split_encoding,
    abs_bits,
    is_infinite,
    is_nan,
    is_weight,
    is_zero,
    lemma_units_order,
    magnitude,
    nan,
    places,
    sign,
    significand,
    units,
    HIDDEN_BIT,
    INFINITY,
    SIGN_BIT,
    UNIT_PLACES,
};
use crate::rounding::{
    lemma_nearest_exists,
    lemma_rounded_rises,
    bit_length,
    brackets,
    lemma_rounded,
    lemma_rounds_to_infinity,
    lemma_rounds_to_itself,
    lemma_wide_powers,
    round_to_nearest,
    rounded,
    wide_power_of_two,
};

verus! {

/// The NaN that the operations give.
pub const NAN: u64 = 0x7ff8_0000_0000_0000;

/// The encoding of one.
pub const ONE: u64 = 0x3ff0_0000_0000_0000;

/// Whether the encoding can be an operand: a weight or a NaN.
pub open spec fn is_operand(bits: u64) -> bool {
    is_nan(bits) || is_weight(bits)
}

/// The zero with the given sign.
pub open spec fn signed_zero(negative: bool) -> u64 {
    if negative {
        SIGN_BIT
    } else {
        0
    }
}

/// The sum `a + b`: the exact sum, rounded. Two zeros give a zero that is
/// negative only where both are.
pub open spec fn sum(a: u64, b: u64) -> u64 {
    if is_nan(a) || is_nan(b) {
        NAN
    } else if is_zero(a) && is_zero(b) {
        signed_zero(sign(a) && sign(b))
    } else {
        rounded((units(a) + units(b)) as int, 1)
    }
}

/// The product `a * b`: the exact product, rounded. A zero factor gives a
/// zero that is negative where one factor is, and infinity times what is
/// not zero is infinity.
pub open spec fn product(a: u64, b: u64) -> u64 {
    if is_nan(a) || is_nan(b) {
        NAN
    } else if is_zero(a) || is_zero(b) {
        if is_infinite(a) || is_infinite(b) {
            NAN
        } else {
            signed_zero(sign(a) != sign(b))
        }
    } else if is_infinite(a) || is_infinite(b) {
        INFINITY
    } else {
        rounded((units(a) * units(b)) as int, pow2(UNIT_PLACES as nat) as int)
    }
}

/// The quotient `a / b` for a `b` that is not zero: the exact quotient,
/// rounded. Zero, and what is finite over infinity, give a zero with the
/// sign of `a`; infinity over what is finite is infinity.
pub open spec fn quotient(a: u64, b: u64) -> u64 {
    if is_nan(a) || is_nan(b) {
        NAN
    } else if is_infinite(a) {
        if is_infinite(b) {
            NAN
        } else {
            INFINITY
        }
    } else if is_zero(a) || is_infinite(b) {
        signed_zero(sign(a))
    } else {
        rounded((units(a) * pow2(UNIT_PLACES as nat)) as int, units(b) as int)
    }
}

/// The natural number `n` as a binary64 number: `n` itself where it can be
/// held, and else rounded.
pub open spec fn of_count(n: nat) -> u64 {
    rounded((n * pow2(UNIT_PLACES as nat)) as int, 1)
}

/// One counts `2^1074` units.
pub proof fn lemma_units_of_one()
    ensures
        units(ONE) == pow2(UNIT_PLACES as nat),
        is_weight(ONE),
{
    lemma_split_encoding(ONE, 1023, 0);
    lemma_pow2_adds(52, 1022);
    lemma_wide_powers();
}

/// What the operations give is an operand again.
pub proof fn lemma_results_are_operands(a: u64, b: u64)
    ensures
        is_operand(sum(a, b)),
        is_operand(product(a, b)),
        is_operand(quotient(a, b)) || units(b) == 0,
        is_weight(of_count(a as nat)),
{
    lemma_pow2_pos(UNIT_PLACES as nat);
    lemma_nearest_exists((units(a) + units(b)) as int, 1);
    lemma_nearest_exists((units(a) * units(b)) as int, pow2(UNIT_PLACES as nat) as int);
    lemma_nearest_exists((a as nat * pow2(UNIT_PLACES as nat)) as int, 1);
    if units(b) > 0 {
        lemma_nearest_exists((units(a) * pow2(UNIT_PLACES as nat)) as int, units(b) as int);
    }
    lemma_split_encoding(NAN, 2047, 0x8_0000_0000_0000);
}

/// The sum of two weights is a weight, below neither of them, and where
/// one of them is zero it is the other.
pub proof fn lemma_sum_of_weights(a: u64, b: u64)
    requires
        is_weight(a),
        is_weight(b),
    ensures
        is_weight(sum(a, b)),
        ge(sum(a, b), a),
        ge(sum(a, b), b),
        is_zero(b) ==> same(sum(a, b), a),
        is_zero(a) ==> same(sum(a, b), b),
        sum(a, b) == sum(b, a),
{
    let r = sum(a, b);
    let ua = units(a) as int;
    let ub = units(b) as int;
    lemma_units_order(a, a);
    lemma_units_order(b, b);
    lemma_units_order(r, r);
    if !(is_zero(a) && is_zero(b)) {
        let ma = magnitude(a);
        let mb = magnitude(b);
        lemma_nearest_exists(ua + ub, 1);
        lemma_units_order(a, ma);
        lemma_units_order(b, mb);
        lemma_rounds_to_itself(ma);
        lemma_rounds_to_itself(mb);
        lemma_rounded(ua, 1, ma);
        lemma_rounded(ub, 1, mb);
        lemma_rounded_rises(ua, 1, ua + ub, 1);
        lemma_rounded_rises(ub, 1, ua + ub, 1);
        lemma_units_order(ma, r);
        lemma_units_order(mb, r);
        lemma_units_order(r, ma);
        lemma_units_order(r, mb);
    }
}

/// A weight scaled by a weight below one does not exceed it, and is no
/// number only where zero meets infinity.
pub proof fn lemma_scaled_below(u: u64, t: u64)
    requires
        is_weight(u),
        units(u) < units(ONE),
        is_weight(t),
        !is_zero(t),
    ensures
        !gt(product(u, t), t),
        is_nan(product(u, t)) <==> is_zero(u) && is_infinite(t),
        !is_nan(product(u, t)) ==> is_weight(product(u, t)),
{
    let r = product(u, t);
    let uu = units(u) as int;
    let ut = units(t) as int;
    let one = pow2(UNIT_PLACES as nat) as int;
    lemma_units_of_one();
    lemma_units_order(u, u);
    lemma_units_order(t, t);
    lemma_units_order(r, r);
    lemma_split_encoding(NAN, 2047, 0x8_0000_0000_0000);
    lemma_split_encoding(INFINITY, 2047, 0);
    lemma_units_order(t, INFINITY);
    lemma_units_order(SIGN_BIT, SIGN_BIT);
    lemma_units_order(u, INFINITY);
    assert(!sign(t));
    assert(!is_infinite(u)) by {
        lemma_units_order(u, ONE);
    }
    if is_zero(u) {
        if is_infinite(t) {
            assert(r == NAN);
        } else {
            assert(is_zero(r));
        }
    } else if is_infinite(t) {
        assert(r == INFINITY);
        assert(t == INFINITY);
    } else {
        lemma_pow2_pos(UNIT_PLACES as nat);
        lemma_nearest_exists(uu * ut, one);
        assert(t <= INFINITY);
        lemma_rounds_to_itself(t);
        lemma_rounded(ut, 1, t);
        assert((uu * ut) * 1 <= ut * one) by (nonlinear_arith)
            requires
                0 <= uu < one,
                ut >= 0,
        ;
        lemma_rounded_rises(uu * ut, one, ut, 1);
        assert(r == rounded(uu * ut, one));
        assert(r <= t);
        lemma_units_order(r, t);
        lemma_units_order(t, r);
    }
}

/// Over one divisor that is finite and not zero, the quotients of weights
/// that do not exceed the divisor are weights up to one, in the order of
/// what is divided.
pub proof fn lemma_quotients_rise(a: u64, b: u64, d: u64)
    requires
        is_weight(a),
        is_weight(b),
        is_weight(d),
        !is_zero(d),
        !is_infinite(d),
        ge(b, a),
        ge(d, b),
    ensures
        is_weight(quotient(a, d)),
        is_weight(quotient(b, d)),
        ge(quotient(b, d), quotient(a, d)),
        ge(ONE, quotient(b, d)),
        same(b, d) ==> quotient(b, d) == ONE,
{
    let qa = quotient(a, d);
    let qb = quotient(b, d);
    let ua = units(a) as int;
    let ub = units(b) as int;
    let ud = units(d) as int;
    let one = pow2(UNIT_PLACES as nat) as int;
    lemma_units_of_one();
    lemma_pow2_pos(UNIT_PLACES as nat);
    lemma_units_order(a, a);
    lemma_units_order(b, b);
    lemma_units_order(d, d);
    lemma_units_order(a, INFINITY);
    lemma_units_order(b, INFINITY);
    lemma_units_order(d, INFINITY);
    lemma_units_order(qa, qa);
    lemma_units_order(qb, qb);
    lemma_units_order(qa, qb);
    lemma_units_order(qb, qa);
    lemma_units_order(qb, ONE);
    lemma_units_order(ONE, qb);
    lemma_split_encoding(INFINITY, 2047, 0);
    assert(!is_infinite(a) && !is_infinite(b));
    lemma_nearest_exists(ua * one, ud);
    lemma_nearest_exists(ub * one, ud);
    lemma_rounds_to_itself(ONE);
    lemma_rounded(one, 1, ONE);
    assert((ua * one) * ud <= (ub * one) * ud) by (nonlinear_arith)
        requires
            0 <= ua <= ub,
            one > 0,
            ud > 0,
    ;
    assert((ub * one) * 1 <= one * ud) by (nonlinear_arith)
        requires
            0 <= ub <= ud,
            one > 0,
    ;
    lemma_rounded_rises(ua * one, ud, ub * one, ud);
    lemma_rounded_rises(ub * one, ud, one, 1);
    if same(b, d) {
        assert(one * ud <= (ub * one) * 1) by (nonlinear_arith)
            requires
                ub == ud,
        ;
        lemma_rounded_rises(one, 1, ub * one, ud);
    }
}

/// Splits an encoding, sign bit clear, into its significand and the
/// places by which that is shifted.
pub fn decompose(bits: u64) -> (r: (u64, u64))
    requires
        bits < SIGN_BIT,
    ensures
        r.0 == significand(bits),
        r.1 == places(bits),
        r.0 < 2 * HIDDEN_BIT,
        r.1 <= 2046,
        r.1 > 0 ==> r.0 >= HIDDEN_BIT,
        r.0 == 0 <==> bits == 0,
        units(bits) == r.0 * pow2(r.1 as nat),
{
    let e: u64 = bits / HIDDEN_BIT;
    let f: u64 = bits % HIDDEN_BIT;
    if e == 0 {
        (f, 0)
    } else {
        (HIDDEN_BIT + f, e - 1)
    }
}

/// Computes [`sum`].
pub fn plus(a: u64, b: u64) -> (r: u64)
    requires
        is_operand(a),
        is_operand(b),
    ensures
        r == sum(a, b),
        is_operand(r),
{
    proof {
        lemma_results_are_operands(a, b);
    }
    if nan(a) || nan(b) {
        return NAN;
    }
    let ma: u64 = abs_bits(a);
    let mb: u64 = abs_bits(b);
    proof {
        lemma_units_order(a, b);
        lemma_units_order(b, a);
        lemma_units_order(a, ma);
        lemma_units_order(b, mb);
    }
    if ma == 0 && mb == 0 {
        return if a >= SIGN_BIT && b >= SIGN_BIT {
            SIGN_BIT
        } else {
            0
        };
    }
    let (hi, lo) = if ma >= mb {
        (ma, mb)
    } else {
        (mb, ma)
    };
    let ghost num = (units(a) + units(b)) as int;
    assert(num == units(hi) + units(lo));
    if lo == 0 {
        proof {
            lemma_units_order(lo, lo);
            lemma_rounds_to_itself(hi);
            lemma_rounded(num, 1, hi);
        }
        return hi;
    }
    if hi == INFINITY {
        proof {
            assert(num >= units(INFINITY) * 1);
            lemma_rounds_to_infinity(num, 1);
            lemma_rounded(num, 1, INFINITY);
        }
        return INFINITY;
    }
    let (sh, ph) = decompose(hi);
    let (sl, pl) = decompose(lo);
    assert(ph >= pl);
    let d: u64 = ph - pl;
    proof {
        lemma_wide_powers();
        lemma_pow2_pos(pl as nat);
        lemma_pow2_pos(ph as nat);
    }
    if d > 55 {
        let t: u128 = (sh as u128) * 8;
        let up: u64 = ph - 3;
        let r: u64 = round_to_nearest(t, up, 0, true);
        proof {
            let below = pow2(up as nat) as int;
            lemma2_to64();
            lemma_pow2_adds(3, up as nat);
            lemma_pow2_adds(53, pl as nat);
            if pl + 53 < up {
                lemma_pow2_strictly_increases((pl + 53) as nat, up as nat);
            }
            let shi = sh as int;
            let sli = sl as int;
            let pli = pow2(pl as nat) as int;
            assert(sli * pli < below) by (nonlinear_arith)
                requires
                    0 <= sli < 2 * 0x10_0000_0000_0000,
                    pli > 0,
                    pow2(53) * pli <= below,
                    pow2(53) == 2 * 0x10_0000_0000_0000,
            ;
            assert(sli * pli > 0) by (nonlinear_arith)
                requires
                    sli > 0,
                    pli > 0,
            ;
            assert((shi * 8) * below * 1 == units(hi)) by (nonlinear_arith)
                requires
                    units(hi) == shi * pow2(ph as nat),
                    pow2(ph as nat) == 8 * below,
            ;
            assert((shi * 8 + 1) * below * 1 == units(hi) + below) by (nonlinear_arith)
                requires
                    (shi * 8) * below * 1 == units(hi),
            ;
            assert(pow2(0) == 1);
            assert(num * pow2(0) == num);
            assert(brackets(num, 1, t as nat, up as nat, 0, true));
            lemma_rounded(num, 1, r);
        }
        r
    } else {
        let shift: u128 = wide_power_of_two(d);
        proof {
            lemma2_to64();
            lemma_pow2_pos(d as nat);
            if d < 55 {
                lemma_pow2_strictly_increases(d as nat, 55);
            }
            lemma_pow2_adds(55, 53);
            lemma_pow2_adds(d as nat, pl as nat);
            lemma_pow2_strictly_increases(108, 120);
            assert((sh as int) * (shift as int) < pow2(108)) by (nonlinear_arith)
                requires
                    0 <= (sh as int) < pow2(53),
                    0 < (shift as int) <= pow2(55),
                    pow2(108) == pow2(55) * pow2(53),
            ;
        }
        let t: u128 = (sh as u128) * shift + (sl as u128);
        let r: u64 = round_to_nearest(t, pl, 0, false);
        proof {
            let shi = sh as int;
            let sli = sl as int;
            let pli = pow2(pl as nat) as int;
            let di = shift as int;
            assert((shi * di + sli) * pli * 1 == shi * (di * pli) + sli * pli) by (nonlinear_arith);
            assert(pow2(0) == 1);
            assert(num * pow2(0) == num);
            assert((t + 1) * pli * 1 > t * pli * 1) by (nonlinear_arith)
                requires
                    pli > 0,
            ;
            assert(brackets(num, 1, t as nat, pl as nat, 0, false));
            lemma_rounded(num, 1, r);
        }
        r
    }
}

/// Computes [`product`].
pub fn times(a: u64, b: u64) -> (r: u64)
    requires
        is_operand(a),
        is_operand(b),
    ensures
        r == product(a, b),
        is_operand(r),
{
    proof {
        lemma_results_are_operands(a, b);
    }
    if nan(a) || nan(b) {
        return NAN;
    }
    let ma: u64 = abs_bits(a);
    let mb: u64 = abs_bits(b);
    proof {
        lemma_units_order(a, ma);
        lemma_units_order(b, mb);
        lemma_units_order(ma, INFINITY);
        lemma_units_order(mb, INFINITY);
    }
    if ma == 0 || mb == 0 {
        if ma == INFINITY || mb == INFINITY {
            return NAN;
        }
        return if (a >= SIGN_BIT) != (b >= SIGN_BIT) {
            SIGN_BIT
        } else {
            0
        };
    }
    if ma == INFINITY || mb == INFINITY {
        return INFINITY;
    }
    let (sa, pa) = decompose(ma);
    let (sb, pb) = decompose(mb);
    proof {
        lemma_wide_powers();
        lemma_pow2_strictly_increases(106, 120);
        lemma_pow2_adds(53, 53);
        assert((sa as int) * (sb as int) < pow2(106)) by (nonlinear_arith)
            requires
                0 <= (sa as int) < pow2(53),
                0 <= (sb as int) < pow2(53),
                pow2(106) == pow2(53) * pow2(53),
        ;
        assert((sa as int) * (sb as int) >= 1) by (nonlinear_arith)
            requires
                (sa as int) >= 1,
                (sb as int) >= 1,
        ;
        if pa > 0 || pb > 0 {
            assert((sa as int) * (sb as int) >= 0x10_0000_0000_0000) by (nonlinear_arith)
                requires
                    (sa as int) >= 1,
                    (sb as int) >= 1,
                    (sa as int) >= 0x10_0000_0000_0000 || (sb as int) >= 0x10_0000_0000_0000,
            ;
        }
    }
    let t: u128 = (sa as u128) * (sb as u128);
    let s: u64 = pa + pb;
    let (up, down) = if s >= UNIT_PLACES {
        (s - UNIT_PLACES, 0)
    } else {
        (0, UNIT_PLACES - s)
    };
    let r: u64 = round_to_nearest(t, up, down, false);
    proof {
        let num = (units(a) * units(b)) as int;
        let den = pow2(UNIT_PLACES as nat) as int;
        let ti = t as int;
        let ppa = pow2(pa as nat) as int;
        let ppb = pow2(pb as nat) as int;
        let pu = pow2(up as nat) as int;
        let pd = pow2(down as nat) as int;
        lemma_pow2_pos(UNIT_PLACES as nat);
        lemma_pow2_pos(up as nat);
        lemma_pow2_pos(down as nat);
        lemma_pow2_adds(pa as nat, pb as nat);
        lemma_pow2_adds(up as nat, UNIT_PLACES as nat);
        lemma_pow2_adds(s as nat, down as nat);
        lemma2_to64();
        let ps = pow2(s as nat) as int;
        assert(num == ti * ps) by (nonlinear_arith)
            requires
                num == ((sa as int) * ppa) * ((sb as int) * ppb),
                ti == (sa as int) * (sb as int),
                ps == ppa * ppb,
        ;
        assert(ti * pu * den == num * pd) by (nonlinear_arith)
            requires
                num == ti * ps,
                pu * den == ps * pd,
        ;
        assert((ti + 1) * pu * den > ti * pu * den) by (nonlinear_arith)
            requires
                pu > 0,
                den > 0,
        ;
        assert(brackets(num, den, t as nat, up as nat, down as nat, false));
        lemma_rounded(num, den, r);
    }
    r
}

/// Computes [`quotient`].
pub fn over(a: u64, b: u64) -> (r: u64)
    requires
        is_operand(a),
        is_operand(b),
        !is_zero(b),
    ensures
        r == quotient(a, b),
        is_operand(r),
{
    proof {
        lemma_results_are_operands(a, b);
        lemma_units_order(b, b);
    }
    if nan(a) || nan(b) {
        return NAN;
    }
    let ma: u64 = abs_bits(a);
    let mb: u64 = abs_bits(b);
    proof {
        lemma_units_order(a, ma);
        lemma_units_order(b, mb);
        lemma_units_order(ma, INFINITY);
        lemma_units_order(mb, INFINITY);
    }
    if ma == INFINITY {
        return if mb == INFINITY {
            NAN
        } else {
            INFINITY
        };
    }
    if ma == 0 || mb == INFINITY {
        return if a >= SIGN_BIT {
            SIGN_BIT
        } else {
            0
        };
    }
    let (sa, pa) = decompose(ma);
    let (sb, pb) = decompose(mb);
    proof {
        lemma_wide_powers();
    }
    let la: u64 = bit_length(sa as u128);
    proof {
        lemma2_to64();
        if la > 53 {
            lemma_pow2_strictly_increases(53, (la - 1) as nat);
        }
        assert(1 <= la <= 53);
    }
    let n: u64 = 117 - la;
    let widen: u128 = wide_power_of_two(n);
    proof {
        lemma_pow2_adds(la as nat, n as nat);
        lemma_pow2_adds((la - 1) as nat, n as nat);
        lemma_pow2_adds(117, 3);
        lemma_pow2_adds(63, 53);
        lemma_pow2_pos(n as nat);
        let sai = sa as int;
        let wi = widen as int;
        assert(sai * wi < pow2(117)) by (nonlinear_arith)
            requires
                0 <= sai < pow2(la as nat),
                wi > 0,
                pow2(117) == pow2(la as nat) * wi,
        ;
        assert(sai * wi >= pow2(116)) by (nonlinear_arith)
            requires
                sai >= pow2((la - 1) as nat),
                wi > 0,
                pow2(116) == pow2((la - 1) as nat) * wi,
        ;
        assert(pow2(3) == 8);
    }
    let wide: u128 = (sa as u128) * widen;
    let q: u128 = wide / (sb as u128);
    let rest: u128 = wide % (sb as u128);
    let sticky: bool = rest != 0;
    proof {
        let qi = q as int;
        let sbi = sb as int;
        let wi = wide as int;
        vstd::arithmetic::div_mod::lemma_fundamental_div_mod(wi, sbi);
        vstd::arithmetic::div_mod::lemma_mod_bound(wi, sbi);
        assert(wi == sbi * qi + (rest as int));
        assert(qi >= pow2(63)) by (nonlinear_arith)
            requires
                wi == sbi * qi + (rest as int),
                0 <= (rest as int) < sbi,
                0 < sbi < pow2(53),
                wi >= pow2(116),
                pow2(116) == pow2(63) * pow2(53),
        ;
        assert(qi <= wi) by (nonlinear_arith)
            requires
                wi == sbi * qi + (rest as int),
                0 <= (rest as int),
                sbi >= 1,
                qi >= 0,
        ;
        vstd::arithmetic::power2::lemma2_to64_rest();
    }
    let s1: u64 = pa + UNIT_PLACES;
    let s2: u64 = pb + n;
    let (up, down) = if s1 >= s2 {
        (s1 - s2, 0)
    } else {
        (0, s2 - s1)
    };
    let r: u64 = round_to_nearest(q, up, down, sticky);
    proof {
        let num = (units(a) * pow2(UNIT_PLACES as nat)) as int;
        let den = units(b) as int;
        let qi = q as int;
        let sai = sa as int;
        let sbi = sb as int;
        let wi = wide as int;
        let ri = rest as int;
        let ppa = pow2(pa as nat) as int;
        let ppb = pow2(pb as nat) as int;
        let pu = pow2(up as nat) as int;
        let pd = pow2(down as nat) as int;
        let pn = pow2(n as nat) as int;
        let z = pow2((pb + up) as nat) as int;
        lemma_pow2_pos(pa as nat);
        lemma_pow2_pos(pb as nat);
        lemma_pow2_pos(up as nat);
        lemma_pow2_pos(down as nat);
        lemma_pow2_pos((pb + up) as nat);
        lemma_pow2_adds(pa as nat, UNIT_PLACES as nat);
        lemma_pow2_adds(s1 as nat, down as nat);
        lemma_pow2_adds(n as nat, (pb + up) as nat);
        lemma_pow2_adds(pb as nat, up as nat);
        assert(den > 0) by (nonlinear_arith)
            requires
                den == sbi * ppb,
                sbi > 0,
                ppb > 0,
        ;
        // both sides in terms of z = 2^(pb + up)
        assert(num * pd == wi * z) by (nonlinear_arith)
            requires
                num == (sai * ppa) * pow2(UNIT_PLACES as nat),
                ppa * pow2(UNIT_PLACES as nat) == pow2(s1 as nat),
                pow2(s1 as nat) * pd == pn * z,
                wi == sai * pn,
        ;
        assert(qi * pu * den == (sbi * qi) * z) by (nonlinear_arith)
            requires
                den == sbi * ppb,
                z == ppb * pu,
        ;
        assert((qi + 1) * pu * den == (sbi * qi + sbi) * z) by (nonlinear_arith)
            requires
                den == sbi * ppb,
                z == ppb * pu,
        ;
        assert((sbi * qi) * z <= wi * z && wi * z < (sbi * qi + sbi) * z && (ri != 0 <==> (sbi * qi)
            * z != wi * z)) by (nonlinear_arith)
            requires
                wi == sbi * qi + ri,
                0 <= ri < sbi,
                z > 0,
        ;
        assert(brackets(num, den, q as nat, up as nat, down as nat, sticky));
        lemma_rounded(num, den, r);
    }
    r
}

/// Computes [`of_count`].
pub fn from_count(n: u64) -> (r: u64)
    ensures
        r == of_count(n as nat),
        is_weight(r),
{
    proof {
        lemma_results_are_operands(n, n);
        lemma_wide_powers();
        lemma2_to64();
        vstd::arithmetic::power2::lemma2_to64_rest();
    }
    if n == 0 {
        proof {
            lemma_units_order(0, 0);
            lemma_rounds_to_itself(0);
            assert(0 * pow2(UNIT_PLACES as nat) == 0) by (nonlinear_arith);
            lemma_rounded(0, 1, 0);
        }
        return 0;
    }
    let l: u64 = bit_length(n as u128);
    proof {
        if l > 64 {
            lemma_pow2_strictly_increases(64, (l - 1) as nat);
        }
        assert(1 <= l <= 64);
    }
    let widen: u64 = if l <= 53 {
        53 - l
    } else {
        0
    };
    let shift: u128 = wide_power_of_two(widen);
    proof {
        lemma_pow2_pos(widen as nat);
        lemma_pow2_adds(l as nat, widen as nat);
        lemma_pow2_adds((l - 1) as nat, widen as nat);
        lemma_pow2_strictly_increases(64, 120);
        let ni = n as int;
        let si = shift as int;
        if l <= 53 {
            assert(ni * si < pow2(53)) by (nonlinear_arith)
                requires
                    0 <= ni < pow2(l as nat),
                    si > 0,
                    pow2(53) == pow2(l as nat) * si,
            ;
            assert(ni * si >= pow2(52)) by (nonlinear_arith)
                requires
                    ni >= pow2((l - 1) as nat),
                    si > 0,
                    pow2(52) == pow2((l - 1) as nat) * si,
            ;
        } else {
            lemma_pow2_strictly_increases(52, (l - 1) as nat);
            assert(ni * si == ni) by (nonlinear_arith)
                requires
                    si == 1,
            ;
        }
    }
    let t: u128 = (n as u128) * shift;
    let up: u64 = UNIT_PLACES - widen;
    let r: u64 = round_to_nearest(t, up, 0, false);
    proof {
        let num = (n * pow2(UNIT_PLACES as nat)) as int;
        let ti = t as int;
        let ni = n as int;
        let si = shift as int;
        let pu = pow2(up as nat) as int;
        lemma_pow2_adds(widen as nat, up as nat);
        lemma_pow2_pos(up as nat);
        assert(ti * pu * 1 == num * 1) by (nonlinear_arith)
            requires
                ti == ni * si,
                num == ni * pow2(UNIT_PLACES as nat),
                pow2(UNIT_PLACES as nat) == si * pu,
        ;
        assert((ti + 1) * pu * 1 > ti * pu * 1) by (nonlinear_arith)
            requires
                pu > 0,
        ;
        assert(num * pow2(0) == num * 1);
        assert(brackets(num, 1, t as nat, up as nat, 0, false));
        lemma_rounded(num, 1, r);
    }
    r
}

} // verus!
