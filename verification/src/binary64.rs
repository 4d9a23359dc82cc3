//! IEEE 754 binary64 numbers, read from their 64-bit encodings.
//!
//! An encoding holds, from the top bit down, one sign bit, eleven bits of
//! biased exponent and fifty-two bits of fraction. Every number that is not
//! a NaN is a whole multiple of `2^-1074`, the smallest subnormal, so its
//! size can be stated exactly as a count of such units; positive and negative
//! infinity are given the count that the same formula yields, which lies above
//! that of every finite number. Comparisons and truncation are defined over
//! that count and computed from the bits alone.

use vstd::prelude::*;
use vstd::arithmetic::div_mod::{
    lemma_basic_div,
    lemma_div_is_ordered,
    lemma_fundamental_div_mod,
    lemma_mod_bound,
    lemma_div_multiples_vanish_quotient,
    lemma_div_by_multiple,
    lemma_mod_multiples_basic,
    lemma_small_mod,
    lemma_truncate_middle,
};
use vstd::bits::{lemma_u64_pow2_no_overflow, lemma_u64_shl_is_mul};
use vstd::arithmetic::power2::{
    pow2,
    lemma_pow2_pos,
    lemma_pow2_unfold,
    lemma_pow2_adds,
    lemma_pow2_strictly_increases,
    lemma2_to64,
    lemma2_to64_rest,
};

verus! {

/// The encoding whose only set bit is the sign bit: negative zero.
pub const SIGN_BIT: u64 = 0x8000_0000_0000_0000;

/// `2^52`: the number of fractions, and the bit that a normal number's
/// significand holds above its fraction.
pub const HIDDEN_BIT: u64 = 0x10_0000_0000_0000;

/// The encoding of positive infinity: all exponent bits set, fraction zero.
pub const INFINITY: u64 = 0x7ff0_0000_0000_0000;

/// The biased exponent that infinities and NaNs carry.
pub const TOP_EXPONENT: u64 = 0x7ff;

/// The number of binary places below one that the smallest unit has.
pub const UNIT_PLACES: u64 = 1074;

/// Whether the sign bit is set.
pub open spec fn sign(bits: u64) -> bool {
    bits >= SIGN_BIT
}

/// The encoding with the sign bit cleared.
pub open spec fn magnitude(bits: u64) -> u64 {
    if bits >= SIGN_BIT {
        (bits - SIGN_BIT) as u64
    } else {
        bits
    }
}

/// The biased exponent, between 0 and `TOP_EXPONENT`.
pub open spec fn exponent(bits: u64) -> nat {
    (magnitude(bits) / HIDDEN_BIT) as nat
}

/// The fraction, below `HIDDEN_BIT`.
pub open spec fn fraction(bits: u64) -> nat {
    (magnitude(bits) % HIDDEN_BIT) as nat
}

/// Whether the encoding is a NaN.
pub open spec fn is_nan(bits: u64) -> bool {
    exponent(bits) == TOP_EXPONENT && fraction(bits) != 0
}

/// Whether the encoding is positive or negative infinity.
pub open spec fn is_infinite(bits: u64) -> bool {
    exponent(bits) == TOP_EXPONENT && fraction(bits) == 0
}

/// Whether the encoding is positive or negative zero.
pub open spec fn is_zero(bits: u64) -> bool {
    exponent(bits) == 0 && fraction(bits) == 0
}

/// The significand: the fraction, with the hidden bit above it unless the
/// number is subnormal or zero.
pub open spec fn significand(bits: u64) -> nat {
    if exponent(bits) == 0 {
        fraction(bits)
    } else {
        HIDDEN_BIT as nat + fraction(bits)
    }
}

/// The binary places by which the significand is shifted up from the
/// smallest unit.
pub open spec fn places(bits: u64) -> nat {
    if exponent(bits) == 0 {
        0
    } else {
        (exponent(bits) - 1) as nat
    }
}

/// The absolute value of the number, counted in units of `2^-1074`.
pub open spec fn units(bits: u64) -> nat {
    significand(bits) * pow2(places(bits))
}

/// The number, counted in units of `2^-1074`; both zeros give 0.
pub open spec fn signed_units(bits: u64) -> int {
    if sign(bits) {
        -(units(bits) as int)
    } else {
        units(bits) as int
    }
}

/// Whether the number is below zero. Negative zero and NaNs are not.
pub open spec fn is_negative(bits: u64) -> bool {
    sign(bits) && !is_nan(bits) && !is_zero(bits)
}

/// Whether the encoding can weigh something: a number, zero or above,
/// positive infinity included.
pub open spec fn is_weight(bits: u64) -> bool {
    !is_nan(bits) && !is_negative(bits)
}

/// The comparison `a > b` of the two numbers; false where either is a NaN.
pub open spec fn gt(a: u64, b: u64) -> bool {
    !is_nan(a) && !is_nan(b) && signed_units(a) > signed_units(b)
}

/// The comparison `a >= b` of the two numbers; false where either is a NaN.
pub open spec fn ge(a: u64, b: u64) -> bool {
    !is_nan(a) && !is_nan(b) && signed_units(a) >= signed_units(b)
}

/// The comparison `a == b` of the two numbers; false where either is a NaN,
/// true of the two zeros.
pub open spec fn same(a: u64, b: u64) -> bool {
    !is_nan(a) && !is_nan(b) && signed_units(a) == signed_units(b)
}

/// Encodings with the larger magnitude count more units.
pub proof fn lemma_units_increase(a: u64, b: u64)
    requires
        magnitude(a) < magnitude(b),
    ensures
        units(a) < units(b),
{
    let ea = exponent(a);
    let eb = exponent(b);
    let sa = significand(a) as int;
    let sb = significand(b) as int;
    let pa = pow2(places(a)) as int;
    let pb = pow2(places(b)) as int;
    lemma_pow2_pos(places(a));
    lemma_pow2_pos(places(b));
    if ea == eb {
        assert(sa < sb);
        assert(sa * pa < sb * pa) by (nonlinear_arith)
            requires
                sa < sb,
                pa > 0,
        ;
    } else {
        assert(ea < eb);
        assert(sb * pb >= sb) by (nonlinear_arith)
            requires
                sb >= 0,
                pb >= 1,
        ;
        if ea == 0 {
            lemma2_to64();
            assert(sa * pa == sa) by (nonlinear_arith)
                requires
                    pa == 1,
            ;
        } else {
            let q = pow2(ea) as int;
            lemma_pow2_unfold(ea);
            assert(q == 2 * pa);
            if ea < eb - 1 {
                lemma_pow2_strictly_increases(ea, (eb - 1) as nat);
            }
            assert(q <= pb);
            assert(sa * pa < 0x10_0000_0000_0000 * q) by (nonlinear_arith)
                requires
                    sa < 2 * 0x10_0000_0000_0000,
                    q == 2 * pa,
                    pa > 0,
            ;
            assert(0x10_0000_0000_0000 * q <= sb * pb) by (nonlinear_arith)
                requires
                    0x10_0000_0000_0000 <= sb,
                    0 < q <= pb,
            ;
        }
    }
}

/// The order of the magnitudes is the order of the unit counts, and only
/// the zeros count no unit.
pub proof fn lemma_units_order(a: u64, b: u64)
    ensures
        magnitude(a) < magnitude(b) <==> units(a) < units(b),
        magnitude(a) == magnitude(b) <==> units(a) == units(b),
        is_zero(a) <==> units(a) == 0,
        is_zero(a) <==> magnitude(a) == 0,
{
    if magnitude(a) < magnitude(b) {
        lemma_units_increase(a, b);
    }
    if magnitude(b) < magnitude(a) {
        lemma_units_increase(b, a);
    }
    lemma_pow2_pos(places(a));
    let s = significand(a) as int;
    let p = pow2(places(a)) as int;
    assert(s * p == 0 <==> s == 0) by (nonlinear_arith)
        requires
            s >= 0,
            p > 0,
    ;
}

/// The encoding, sign bit clear, of `q * 2^places` units, where `q` is a
/// significand or, at `2^53`, one step beyond the largest.
pub open spec fn encoding_of(places: nat, q: nat) -> u64 {
    (places * HIDDEN_BIT + q) as u64
}

/// What [`encoding_of`] gives counts `q * 2^places` units, provided that `q`
/// has its hidden bit wherever `places` is not zero.
pub proof fn lemma_encoding_of(places: nat, q: nat)
    requires
        places <= 2045,
        q <= 2 * HIDDEN_BIT,
        places == 0 || q >= HIDDEN_BIT,
    ensures
        encoding_of(places, q) == places * HIDDEN_BIT + q,
        encoding_of(places, q) <= INFINITY,
        units(encoding_of(places, q)) == q * pow2(places),
{
    let m = encoding_of(places, q);
    assert(places * HIDDEN_BIT + q <= 2047 * 0x10_0000_0000_0000) by (nonlinear_arith)
        requires
            places <= 2045,
            q <= 2 * 0x10_0000_0000_0000,
            HIDDEN_BIT == 0x10_0000_0000_0000,
    ;
    assert(m == places * HIDDEN_BIT + q);
    assert(magnitude(m) == m);
    if q < HIDDEN_BIT {
        assert(places == 0);
        assert(m == q);
        assert(exponent(m) == 0);
        assert(fraction(m) == q);
        lemma2_to64();
        assert(q * pow2(0) == q) by (nonlinear_arith)
            requires
                pow2(0) == 1,
        ;
    } else if q < 2 * HIDDEN_BIT {
        assert(m == (places + 1) * HIDDEN_BIT + (q - HIDDEN_BIT)) by (nonlinear_arith)
            requires
                m == places * HIDDEN_BIT + q,
        ;
        lemma_split_encoding(m, places + 1, (q - HIDDEN_BIT) as nat);
    } else {
        assert(m == (places + 2) * HIDDEN_BIT + 0) by (nonlinear_arith)
            requires
                m == places * HIDDEN_BIT + q,
                q == 2 * HIDDEN_BIT,
        ;
        lemma_split_encoding(m, places + 2, 0);
        lemma_pow2_unfold(places + 1);
        let p = pow2(places) as int;
        assert(0x10_0000_0000_0000 * (2 * p) == (2 * 0x10_0000_0000_0000) * p) by (nonlinear_arith);
    }
}

/// An encoding, sign bit clear, that is `e * 2^52 + f` with `f` below
/// `2^52` has the exponent `e` and the fraction `f`.
pub proof fn lemma_split_encoding(m: u64, e: nat, f: nat)
    requires
        m < SIGN_BIT,
        m == e * HIDDEN_BIT + f,
        f < HIDDEN_BIT,
    ensures
        exponent(m) == e,
        fraction(m) == f,
{
    let d = HIDDEN_BIT as int;
    vstd::arithmetic::div_mod::lemma_fundamental_div_mod_converse(m as int, d, e as int, f as int);
}

/// Clears the sign bit.
pub fn abs_bits(bits: u64) -> (r: u64)
    ensures
        r == magnitude(bits),
        r < SIGN_BIT,
{
    if bits >= SIGN_BIT {
        bits - SIGN_BIT
    } else {
        bits
    }
}

/// Tells whether the encoding is a NaN.
pub fn nan(bits: u64) -> (r: bool)
    ensures
        r == is_nan(bits),
{
    abs_bits(bits) > INFINITY
}

/// Tells whether the encoding is one of the two zeros.
pub fn zero(bits: u64) -> (r: bool)
    ensures
        r == is_zero(bits),
{
    abs_bits(bits) == 0
}

/// Tells whether the number is below zero.
pub fn negative(bits: u64) -> (r: bool)
    ensures
        r == is_negative(bits),
{
    bits > SIGN_BIT && bits - SIGN_BIT <= INFINITY
}

/// Tells whether the encoding is a number that is zero or above.
pub fn weight(bits: u64) -> (r: bool)
    ensures
        r == is_weight(bits),
{
    !nan(bits) && !negative(bits)
}

/// Compares two numbers as `a > b` does.
pub fn greater(a: u64, b: u64) -> (r: bool)
    ensures
        r == gt(a, b),
{
    if nan(a) || nan(b) {
        return false;
    }
    let ma: u64 = abs_bits(a);
    let mb: u64 = abs_bits(b);
    proof {
        lemma_units_order(a, b);
        lemma_units_order(b, a);
    }
    if a >= SIGN_BIT {
        b >= SIGN_BIT && ma < mb
    } else if b >= SIGN_BIT {
        ma != 0 || mb != 0
    } else {
        ma > mb
    }
}

/// Compares two numbers as `a >= b` does.
pub fn at_least(a: u64, b: u64) -> (r: bool)
    ensures
        r == ge(a, b),
{
    !nan(a) && !nan(b) && !greater(b, a)
}

/// Compares two numbers as `a == b` does.
pub fn equal(a: u64, b: u64) -> (r: bool)
    ensures
        r == same(a, b),
{
    if nan(a) || nan(b) {
        return false;
    }
    let ma: u64 = abs_bits(a);
    let mb: u64 = abs_bits(b);
    proof {
        lemma_units_order(a, b);
        lemma_units_order(b, a);
    }
    if (a >= SIGN_BIT) == (b >= SIGN_BIT) {
        ma == mb
    } else {
        ma == 0 && mb == 0
    }
}

/// The whole part of the absolute value: the units, divided by the `2^1074`
/// that make one and rounded down.
pub open spec fn whole_part(bits: u64) -> nat {
    units(bits) / pow2(UNIT_PLACES as nat)
}

/// Whether the number is whole: a multiple of the `2^1074` units that make
/// one.
pub open spec fn is_whole(bits: u64) -> bool {
    units(bits) % pow2(UNIT_PLACES as nat) == 0
}

/// Whether the number is zero or above and at most the natural number `n`.
pub open spec fn within(bits: u64, n: nat) -> bool {
    is_weight(bits) && units(bits) <= n * pow2(UNIT_PLACES as nat)
}

/// Whether the number is the natural number `n`.
pub open spec fn is_count(bits: u64, n: nat) -> bool {
    is_weight(bits) && units(bits) == n * pow2(UNIT_PLACES as nat)
}

/// A number with a biased exponent below 1023 is below one.
pub proof fn lemma_below_one(bits: u64)
    requires
        exponent(bits) < 1023,
    ensures
        units(bits) < pow2(UNIT_PLACES as nat),
        whole_part(bits) == 0,
        is_whole(bits) <==> is_zero(bits),
{
    let s = significand(bits) as int;
    let p = pow2(places(bits)) as int;
    let top = pow2(UNIT_PLACES as nat) as int;
    lemma2_to64_rest();
    lemma_pow2_pos(places(bits));
    lemma_pow2_adds(53, places(bits));
    if 53 + places(bits) < 1074 {
        lemma_pow2_strictly_increases(53 + places(bits), 1074);
    }
    assert(s * p < pow2(53) * p) by (nonlinear_arith)
        requires
            s < pow2(53),
            p > 0,
    ;
    assert(units(bits) < top);
    lemma_basic_div(units(bits) as int, top);
    lemma_small_mod(units(bits), top as nat);
    lemma_units_order(bits, bits);
}

/// A number with a biased exponent from 1023 to 1074 has a significand
/// that reaches `1075 - exponent` places below one.
pub proof fn lemma_around_one(bits: u64)
    requires
        1023 <= exponent(bits) <= 1074,
    ensures
        whole_part(bits) == significand(bits) / pow2((1075 - exponent(bits)) as nat),
        is_whole(bits) <==> significand(bits) % pow2((1075 - exponent(bits)) as nat) == 0,
{
    let s = significand(bits) as int;
    let low = (1075 - exponent(bits)) as nat;
    let p = pow2(places(bits)) as int;
    let d = pow2(low) as int;
    lemma_pow2_pos(places(bits));
    lemma_pow2_pos(low);
    lemma_pow2_adds(places(bits), low);
    assert(pow2(UNIT_PLACES as nat) == p * d);
    assert(s * p == p * s) by (nonlinear_arith);
    lemma_div_multiples_vanish_quotient(p, s, d);
    lemma_truncate_middle(s, p, d);
    assert(p * (s % d) == 0 <==> s % d == 0) by (nonlinear_arith)
        requires
            p > 0,
    ;
}

/// A number with a biased exponent of 1075 or more is whole.
pub proof fn lemma_far_above_one(bits: u64)
    requires
        exponent(bits) >= 1075,
    ensures
        whole_part(bits) == significand(bits) * pow2((exponent(bits) - 1075) as nat),
        is_whole(bits),
{
    let s = significand(bits) as int;
    let high = (exponent(bits) - 1075) as nat;
    let h = pow2(high) as int;
    let top = pow2(UNIT_PLACES as nat) as int;
    lemma_pow2_pos(high);
    lemma_pow2_pos(UNIT_PLACES as nat);
    lemma_pow2_adds(high, UNIT_PLACES as nat);
    assert(pow2(places(bits)) == h * top);
    assert(s * (h * top) == (s * h) * top) by (nonlinear_arith);
    assert(s * h >= 0) by (nonlinear_arith)
        requires
            s >= 0,
            h >= 0,
    ;
    lemma_div_by_multiple(s * h, top);
    lemma_mod_multiples_basic(s * h, top);
}

/// A number compares with a natural number as its whole part does, the
/// fractional rest breaking the tie.
pub proof fn lemma_count_by_whole_part(bits: u64, n: nat)
    ensures
        units(bits) <= n * pow2(UNIT_PLACES as nat) <==> whole_part(bits) < n || (whole_part(bits)
            == n && is_whole(bits)),
        units(bits) == n * pow2(UNIT_PLACES as nat) <==> whole_part(bits) == n && is_whole(bits),
{
    let one = pow2(UNIT_PLACES as nat) as int;
    let u = units(bits) as int;
    let q = u / one;
    let r = u % one;
    let m = n as int;
    lemma_pow2_pos(UNIT_PLACES as nat);
    lemma_fundamental_div_mod(u, one);
    lemma_mod_bound(u, one);
    assert(q < m ==> one * q + r < m * one) by (nonlinear_arith)
        requires
            0 <= r < one,
    ;
    assert(q > m ==> one * q + r > m * one) by (nonlinear_arith)
        requires
            0 <= r < one,
    ;
    assert(q == m ==> one * q + r == m * one + r) by (nonlinear_arith);
}

/// Of two numbers at or above zero, the larger has the larger whole part.
pub proof fn lemma_whole_part_rises(a: u64, b: u64)
    requires
        is_weight(a),
        is_weight(b),
        ge(b, a),
    ensures
        whole_part(a) <= whole_part(b),
{
    lemma_units_order(a, a);
    lemma_units_order(b, b);
    lemma_pow2_pos(UNIT_PLACES as nat);
    lemma_div_is_ordered(units(a) as int, units(b) as int, pow2(UNIT_PLACES as nat) as int);
}

/// Computes `2^n`.
fn power_of_two(n: u64) -> (r: u64)
    requires
        n < 64,
    ensures
        r == pow2(n as nat),
{
    proof {
        lemma_u64_pow2_no_overflow(n as nat);
        lemma_u64_shl_is_mul(1, n);
    }
    1u64 << n
}

/// Gives the whole part of the absolute value, or `None` where it is
/// `2^64` or more.
pub fn whole(bits: u64) -> (r: Option<u64>)
    ensures
        match r {
            Some(w) => w == whole_part(bits),
            None => whole_part(bits) > u64::MAX,
        },
{
    let m: u64 = abs_bits(bits);
    let e: u64 = m / HIDDEN_BIT;
    let f: u64 = m % HIDDEN_BIT;
    if e < 1023 {
        proof {
            lemma_below_one(bits);
        }
        Some(0)
    } else if e < 1075 {
        let d: u64 = power_of_two(1075 - e);
        proof {
            lemma_around_one(bits);
            lemma_pow2_pos((1075 - e) as nat);
        }
        Some((HIDDEN_BIT + f) / d)
    } else if e <= 1086 {
        let h: u64 = power_of_two(e - 1075);
        let s: u64 = HIDDEN_BIT + f;
        proof {
            lemma_far_above_one(bits);
            lemma2_to64();
            if e < 1086 {
                lemma_pow2_strictly_increases((e - 1075) as nat, 11);
            }
            assert(s * h < 0x1_0000_0000_0000_0000) by (nonlinear_arith)
                requires
                    s < 0x20_0000_0000_0000,
                    0 <= h <= 0x800,
            ;
        }
        Some(s * h)
    } else {
        proof {
            lemma_far_above_one(bits);
            lemma2_to64();
            let high = (e - 1075) as nat;
            if high > 12 {
                lemma_pow2_strictly_increases(12, high);
            }
            let h = pow2(high) as int;
            let s = significand(bits) as int;
            assert(s * h >= 0x1_0000_0000_0000_0000) by (nonlinear_arith)
                requires
                    s >= 0x10_0000_0000_0000,
                    h >= 0x1000,
            ;
        }
        None
    }
}

/// Tells whether the number is whole.
pub fn whole_exactly(bits: u64) -> (r: bool)
    ensures
        r == is_whole(bits),
{
    let m: u64 = abs_bits(bits);
    let e: u64 = m / HIDDEN_BIT;
    let f: u64 = m % HIDDEN_BIT;
    if e < 1023 {
        proof {
            lemma_below_one(bits);
        }
        m == 0
    } else if e < 1075 {
        let d: u64 = power_of_two(1075 - e);
        proof {
            lemma_around_one(bits);
            lemma_pow2_pos((1075 - e) as nat);
        }
        (HIDDEN_BIT + f) % d == 0
    } else {
        proof {
            lemma_far_above_one(bits);
        }
        true
    }
}

} // verus!
