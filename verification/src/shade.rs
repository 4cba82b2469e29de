//! Fixed-point hillshading.
//!
//! Brightness for a pixel is derived from the local altitude gradient: the
//! difference between the altitude at the pixel's site and at a site offset
//! by a fixed comparison distance runs through a monotone, odd, rational
//! slope curve bounded inside one (standing in for a normalized arctangent),
//! is scaled down for low altitudes, and a small seeded pseudo-random dither
//! term is added. The base color is multiplied channel-wise by the brightness
//! and clamped to the byte range.

use vstd::prelude::*;

verus! {

use vstd::arithmetic::div_mod::{
    lemma_div_pos_is_pos,
    lemma_div_is_ordered,
    lemma_div_is_ordered_by_denominator,
    lemma_div_basics,
    lemma_div_multiples_vanish,
    lemma_fundamental_div_mod_converse,
};
use crate::node::FP_ONE;

/// The fixed maximum-altitude constant: altitudes are normalized by it for
/// the color-ramp position. Fixed point, `FP_ONE` per altitude unit.
pub const MAX_ALTITUDE_FP: i64 = 2_000_000;

/// The altitude-difference scale of the slope shade. Fixed point.
pub const MAX_SHADOW_FP: i64 = 350_000;

/// Exclusive upper bound of the dither term. Fixed point: a twentieth of one.
pub const DITHER_FP: i64 = 50;

/// Largest altitude magnitude the fixed-point shade arithmetic accepts.
pub const ALT_LIMIT: i64 = 1_000_000_000_000;

/// Division truncating toward zero, the semantics of the executable `/` on
/// possibly negative dividends; the divisor must be positive.
pub open spec fn tdiv(a: int, b: int) -> int {
    if a >= 0 {
        a / b
    } else {
        -((-a) / b)
    }
}

/// Clamps to the byte range.
pub open spec fn clamp_255(v: int) -> int {
    if v < 0 {
        0
    } else if v > 255 {
        255
    } else {
        v
    }
}

/// The normalized slope curve: odd, monotone in `delta`, zero at zero, and
/// strictly inside `(-FP_ONE, FP_ONE)`; `den` sets how fast it saturates.
pub open spec fn shade_unit(delta: int, den: int) -> int {
    if delta >= 0 {
        FP_ONE * delta / (den + delta)
    } else {
        -(FP_ONE * (-delta) / (den - delta))
    }
}

/// Fixed-point fraction of the maximum altitude: the color-ramp position of
/// an altitude.
pub open spec fn prop_of(alt: int) -> int {
    tdiv(alt * FP_ONE, MAX_ALTITUDE_FP as int)
}

/// The brightness of a pixel: one, darkened by the slope shade scaled down
/// for low altitudes, plus the dither term.
pub open spec fn brightness_of(alt: int, alt2: int, dither: int) -> int {
    let s = shade_unit(alt - alt2, MAX_SHADOW_FP as int);
    let factor = tdiv(prop_of(alt) * 800, FP_ONE as int) + 200;
    FP_ONE - tdiv(s * factor, FP_ONE as int) + dither
}

/// One color channel multiplied by the brightness and clamped.
pub open spec fn shaded_channel(c: int, alt: int, alt2: int, dither: int) -> int {
    clamp_255(tdiv(c * brightness_of(alt, alt2, dither), FP_ONE as int))
}

/// Quotients respect cross-multiplied order: `a / b <= c / d` when
/// `a * d <= c * b`.
proof fn lemma_div_cross(a: int, b: int, c: int, d: int)
    requires
        0 <= a,
        1 <= b,
        0 <= c,
        1 <= d,
        a * d <= c * b,
    ensures
        a / b <= c / d,
{
    lemma_div_pos_is_pos(a, b);
    vstd::arithmetic::div_mod::lemma_remainder_lower(a, b);
    let q = a / b;
    assert(q * d <= c) by (nonlinear_arith)
        requires
            q * b <= a,
            a * d <= c * b,
            1 <= b,
            0 <= d,
    ;
    lemma_div_is_ordered(q * d, c, d);
    lemma_div_multiples_vanish(q, d);
    assert(d * q == q * d) by (nonlinear_arith);
}

/// The slope curve never falls as the altitude difference grows.
pub proof fn lemma_shade_unit_monotone(d1: int, d2: int, den: int)
    requires
        1 <= den,
        d1 <= d2,
    ensures
        shade_unit(d1, den) <= shade_unit(d2, den),
{
    if d1 >= 0 {
        assert((FP_ONE * d1) * (den + d2) <= (FP_ONE * d2) * (den + d1)) by (nonlinear_arith)
            requires
                0 <= d1 <= d2,
                1 <= den,
                FP_ONE == 1000,
        ;
        lemma_div_cross(FP_ONE * d1, den + d1, FP_ONE * d2, den + d2);
    } else if d2 < 0 {
        assert((FP_ONE * (-d2)) * (den - d1) <= (FP_ONE * (-d1)) * (den - d2)) by (nonlinear_arith)
            requires
                d1 <= d2 < 0,
                1 <= den,
                FP_ONE == 1000,
        ;
        lemma_div_cross(FP_ONE * (-d2), den - d2, FP_ONE * (-d1), den - d1);
    } else {
        lemma_div_pos_is_pos(FP_ONE * (-d1), den - d1);
        lemma_div_pos_is_pos(FP_ONE * d2, den + d2);
    }
}

/// Truncating division by a positive divisor preserves order.
proof fn lemma_tdiv_monotone(x1: int, x2: int, d: int)
    requires
        x1 <= x2,
        1 <= d,
    ensures
        tdiv(x1, d) <= tdiv(x2, d),
{
    if x1 >= 0 {
        lemma_div_is_ordered(x1, x2, d);
    } else if x2 < 0 {
        lemma_div_is_ordered(-x2, -x1, d);
    } else {
        lemma_div_pos_is_pos(-x1, d);
        lemma_div_pos_is_pos(x2, d);
    }
}

/// The hillshade law: for a pixel of nonnegative altitude, a steeper local
/// gradient (a lower altitude at the offset site) never brightens the pixel,
/// for the same dither term.
pub proof fn lemma_gradient_darkens(alt: int, alt2_low: int, alt2_high: int, dither: int)
    requires
        0 <= alt,
        alt2_low <= alt2_high,
    ensures
        brightness_of(alt, alt2_low, dither) <= brightness_of(alt, alt2_high, dither),
{
    lemma_shade_unit_monotone(
        alt - alt2_high,
        alt - alt2_low,
        MAX_SHADOW_FP as int,
    );
    let s_small = shade_unit(alt - alt2_high, MAX_SHADOW_FP as int);
    let s_big = shade_unit(alt - alt2_low, MAX_SHADOW_FP as int);
    assert(alt * FP_ONE >= 0) by (nonlinear_arith)
        requires
            0 <= alt,
            FP_ONE == 1000,
    ;
    lemma_div_pos_is_pos(alt * FP_ONE, MAX_ALTITUDE_FP as int);
    let prop = prop_of(alt);
    assert(prop * 800 >= 0) by (nonlinear_arith)
        requires
            0 <= prop,
    ;
    lemma_div_pos_is_pos(prop * 800, FP_ONE as int);
    let factor = tdiv(prop * 800, FP_ONE as int) + 200;
    assert(s_small * factor <= s_big * factor) by (nonlinear_arith)
        requires
            s_small <= s_big,
            factor >= 0,
    ;
    lemma_tdiv_monotone(s_small * factor, s_big * factor, FP_ONE as int);
}

/// A positive divisor keeps a bounded dividend's quotient strictly below the
/// cofactor: `a < b * c` gives `a / b < c`.
proof fn lemma_div_strict_bound(a: int, b: int, c: int)
    requires
        0 <= a,
        1 <= b,
        1 <= c,
        a < b * c,
    ensures
        a / b < c,
{
    lemma_div_is_ordered(a, b * c - 1, b);
    assert(b * c - 1 == (c - 1) * b + (b - 1)) by (nonlinear_arith);
    lemma_fundamental_div_mod_converse(b * c - 1, b, c - 1, b - 1);
}

/// Computes `tdiv(a, b)`; the result's magnitude never exceeds the
/// dividend's.
fn tdiv_exec(a: i64, b: i64) -> (r: i64)
    requires
        1 <= b,
        -1_000_000_000_000_000_000 <= a <= 1_000_000_000_000_000_000,
    ensures
        r == tdiv(a as int, b as int),
        a >= 0 ==> 0 <= r <= a,
        a < 0 ==> a <= r <= 0,
{
    if a >= 0 {
        proof {
            lemma_div_pos_is_pos(a as int, b as int);
            lemma_div_is_ordered_by_denominator(a as int, 1, b as int);
            lemma_div_basics(a as int);
        }
        a / b
    } else {
        proof {
            lemma_div_pos_is_pos(-(a as int), b as int);
            lemma_div_is_ordered_by_denominator(-(a as int), 1, b as int);
            lemma_div_basics(-(a as int));
        }
        -((-a) / b)
    }
}

/// Computes the slope curve `shade_unit(delta, den)`; the result lies
/// strictly inside `(-FP_ONE, FP_ONE)`.
fn shade_unit_exec(delta: i64, den: i64) -> (r: i64)
    requires
        1 <= den <= 1_000_000_000,
        -2_000_000_000_000 <= delta <= 2_000_000_000_000,
    ensures
        r == shade_unit(delta as int, den as int),
        -FP_ONE < r < FP_ONE,
{
    if delta >= 0 {
        proof {
            lemma_div_pos_is_pos(FP_ONE as int * delta, den + delta);
            assert(FP_ONE * delta < (den + delta) * FP_ONE) by (nonlinear_arith)
                requires
                    den >= 1,
                    delta >= 0,
            ;
            lemma_div_strict_bound(FP_ONE as int * delta, den + delta, FP_ONE as int);
        }
        FP_ONE * delta / (den + delta)
    } else {
        proof {
            lemma_div_pos_is_pos(FP_ONE as int * (-delta), den - delta);
            assert(FP_ONE * (-delta) < (den - delta) * FP_ONE) by (nonlinear_arith)
                requires
                    den >= 1,
                    delta < 0,
            ;
            lemma_div_strict_bound(FP_ONE as int * (-delta), den - delta, FP_ONE as int);
        }
        -(FP_ONE * (-delta) / (den - delta))
    }
}

/// Computes the fixed-point color-ramp position of an altitude.
pub fn prop_exec(altitude: i64) -> (r: i64)
    requires
        -ALT_LIMIT <= altitude <= ALT_LIMIT,
    ensures
        r == prop_of(altitude as int),
        -500_000_000 <= r <= 500_000_000,
{
    let r = tdiv_exec(altitude * FP_ONE, MAX_ALTITUDE_FP);
    proof {
        if altitude >= 0 {
            lemma_div_is_ordered(
                altitude as int * FP_ONE,
                ALT_LIMIT as int * FP_ONE,
                MAX_ALTITUDE_FP as int,
            );
        } else {
            lemma_div_is_ordered(
                -(altitude as int) * FP_ONE,
                ALT_LIMIT as int * FP_ONE,
                MAX_ALTITUDE_FP as int,
            );
        }
    }
    r
}

/// Multiplies a base color channel-wise by the hillshade brightness for the
/// altitude pair and dither term, clamped to the byte range.
pub fn shade_pixel(color: (u8, u8, u8), altitude: i64, altitude2: i64, dither: i64) -> (r: (
    u8,
    u8,
    u8,
))
    requires
        -ALT_LIMIT <= altitude <= ALT_LIMIT,
        -ALT_LIMIT <= altitude2 <= ALT_LIMIT,
        0 <= dither <= FP_ONE,
    ensures
        r.0 as int == shaded_channel(color.0 as int, altitude as int, altitude2 as int, dither as int),
        r.1 as int == shaded_channel(color.1 as int, altitude as int, altitude2 as int, dither as int),
        r.2 as int == shaded_channel(color.2 as int, altitude as int, altitude2 as int, dither as int),
{
    let s = shade_unit_exec(altitude - altitude2, MAX_SHADOW_FP);
    let prop = prop_exec(altitude);
    proof {
        assert(-400_000_000_000 <= prop * 800 <= 400_000_000_000) by (nonlinear_arith)
            requires
                -500_000_000 <= prop <= 500_000_000,
        ;
    }
    let factor = tdiv_exec(prop * 800, FP_ONE) + 200;
    proof {
        assert(-401_000_000_000_000 <= s * factor <= 401_000_000_000_000) by (nonlinear_arith)
            requires
                -1000 <= s <= 1000,
                -400_000_000_200 <= factor <= 400_000_000_200,
        ;
    }
    let shade_term = tdiv_exec(s * factor, FP_ONE);
    let brightness = FP_ONE - shade_term + dither;
    let red = shade_channel_exec(color.0, brightness);
    let green = shade_channel_exec(color.1, brightness);
    let blue = shade_channel_exec(color.2, brightness);
    proof {
        assert(brightness == brightness_of(altitude as int, altitude2 as int, dither as int));
    }
    (red, green, blue)
}

/// One channel multiplied by a brightness and clamped to the byte range.
fn shade_channel_exec(c: u8, brightness: i64) -> (r: u8)
    requires
        -2_000_000_000_000_000 <= brightness <= 2_000_000_000_000_000,
    ensures
        r as int == clamp_255(tdiv(c as int * brightness, FP_ONE as int)),
{
    proof {
        assert(-600_000_000_000_000_000 <= (c as int) * brightness <= 600_000_000_000_000_000)
            by (nonlinear_arith)
            requires
                0 <= c <= 255,
                -2_000_000_000_000_000 <= brightness <= 2_000_000_000_000_000,
        ;
    }
    let v = tdiv_exec(c as i64 * brightness, FP_ONE);
    if v < 0 {
        0
    } else if v > 255 {
        255
    } else {
        v as u8
    }
}

} // verus!
