//! The spectrum mapper: a pure, total function from a fixed-point position
//! along a visible-light-like domain to an RGB color.
//!
//! Positions, gamma and brightness are fixed-point values in millionths
//! (see `crate::fixed`). A position is meaningful in `[380, 781)` units of
//! a million; anything else maps to black. The input position is first
//! mirrored within the domain, so that growing positions run from red
//! toward violet; six contiguous bands then give raw channel intensities,
//! an edge factor dims colors near both ends of the domain, and each
//! channel is gamma-corrected, scaled by the brightness, clamped to 255
//! and truncated to eight bits.

use crate::fixed::lemma_pow_fp_range;
use crate::fixed::mul_fp;
use crate::fixed::pow_fp;
use crate::fixed::fixed_mul;
use crate::fixed::fixed_pow;
use crate::fixed::SCALE;
use vstd::arithmetic::div_mod::lemma_div_is_ordered;
use vstd::arithmetic::div_mod::lemma_div_multiples_vanish;
use vstd::arithmetic::div_mod::lemma_div_pos_is_pos;
use vstd::arithmetic::mul::lemma_mul_nonnegative;
use vstd::prelude::*;

verus! {

/// An RGB color with 8-bit channels.
#[derive(PartialEq, Eq, Structural, Clone, Copy, Debug)]
pub struct Color {
    pub r: u8,
    pub g: u8,
    pub b: u8,
}

/// Raw channel intensities on `[380, 440)` units: red fades out, blue full.
pub open spec fn band_violet(eff: int) -> (int, int, int) {
    ((440 * SCALE as int - eff) / 60, 0, SCALE as int)
}

/// Raw channel intensities on `[440, 490)` units: green fades in, blue full.
pub open spec fn band_blue(eff: int) -> (int, int, int) {
    (0, (eff - 440 * SCALE as int) / 50, SCALE as int)
}

/// Raw channel intensities on `[490, 510)` units: green full, blue fades out.
pub open spec fn band_cyan(eff: int) -> (int, int, int) {
    (0, SCALE as int, (510 * SCALE as int - eff) / 20)
}

/// Raw channel intensities on `[510, 580)` units: red fades in, green full.
pub open spec fn band_green(eff: int) -> (int, int, int) {
    ((eff - 510 * SCALE as int) / 70, SCALE as int, 0)
}

/// Raw channel intensities on `[580, 645)` units: red full, green fades out.
pub open spec fn band_orange(eff: int) -> (int, int, int) {
    (SCALE as int, (645 * SCALE as int - eff) / 65, 0)
}

/// Raw channel intensities on `[645, 781)` units: red only.
pub open spec fn band_red(eff: int) -> (int, int, int) {
    (SCALE as int, 0, 0)
}

/// Raw, unscaled channel intensities in `[0, 1]` units for a mirrored
/// position: one of six contiguous half-open bands, black outside them.
pub open spec fn raw_rgb(eff: int) -> (int, int, int) {
    if 380 * SCALE as int <= eff < 440 * SCALE as int {
        band_violet(eff)
    } else if 440 * SCALE as int <= eff < 490 * SCALE as int {
        band_blue(eff)
    } else if 490 * SCALE as int <= eff < 510 * SCALE as int {
        band_cyan(eff)
    } else if 510 * SCALE as int <= eff < 580 * SCALE as int {
        band_green(eff)
    } else if 580 * SCALE as int <= eff < 645 * SCALE as int {
        band_orange(eff)
    } else if 645 * SCALE as int <= eff < 781 * SCALE as int {
        band_red(eff)
    } else {
        (0, 0, 0)
    }
}

/// Intensity attenuation near the extremes of the domain: rises from 0.3
/// to 1 on `[380, 420)` units, is 1 on `[420, 701)`, falls back toward 0.3
/// on `[701, 781)`, and is 0 outside the domain.
pub open spec fn edge_factor(eff: int) -> int {
    if 380 * SCALE as int <= eff < 420 * SCALE as int {
        300000 + 7 * (eff - 380 * SCALE as int) / 400
    } else if 420 * SCALE as int <= eff < 701 * SCALE as int {
        SCALE as int
    } else if 701 * SCALE as int <= eff < 781 * SCALE as int {
        if eff >= 780 * SCALE as int {
            300000 - 7 * (eff - 780 * SCALE as int) / 800
        } else {
            300000 + 7 * (780 * SCALE as int - eff) / 800
        }
    } else {
        0
    }
}

/// One channel's 8-bit value: a raw intensity of exactly zero stays zero
/// whatever the exponent, anything else is attenuated, raised to the gamma
/// exponent, scaled to the 8-bit range, multiplied by the brightness and
/// clamped to 255.
#[verifier::opaque]
pub open spec fn scaled_channel(raw: int, factor: int, gamma: int, brightness: int) -> int {
    if raw == 0 {
        0
    } else {
        let pw = pow_fp(mul_fp(raw, factor), gamma);
        let v = 255 * pw * brightness / (SCALE as int * SCALE as int);
        if v > 255 {
            255
        } else {
            v
        }
    }
}

/// The three scaled channel values for a position `p` in millionths.
pub open spec fn rgb_channels(p: int, gamma: int, brightness: int) -> (int, int, int) {
    let eff = 1160 * SCALE as int - p;
    let raw = raw_rgb(eff);
    let factor = edge_factor(eff);
    (
        scaled_channel(raw.0, factor, gamma, brightness),
        scaled_channel(raw.1, factor, gamma, brightness),
        scaled_channel(raw.2, factor, gamma, brightness),
    )
}

/// The color of a position `p` in millionths.
pub open spec fn color_at(p: int, gamma: int, brightness: int) -> Color {
    let t = rgb_channels(p, gamma, brightness);
    Color { r: t.0 as u8, g: t.1 as u8, b: t.2 as u8 }
}

/// A linear band segment: `num / den` in fixed point, at most one unit.
fn ramp(num: u64, den: u64) -> (r: u64)
    requires
        0 < den <= 100,
        num <= den * SCALE,
    ensures
        r as int == num as int / den as int,
        r <= SCALE,
{
    proof {
        lemma_div_is_ordered(num as int, den as int * SCALE as int, den as int);
        lemma_div_multiples_vanish(SCALE as int, den as int);
    }
    num / den
}

fn scale_one(raw: u64, factor: u64, gamma: u64, brightness: u64) -> (v: u8)
    requires
        raw <= SCALE,
        factor <= SCALE,
    ensures
        v as int == scaled_channel(raw as int, factor as int, gamma as int, brightness as int),
{
    let result: u8;
    if raw == 0 {
        result = 0;
    } else {
        let rf = fixed_mul(raw, factor);
        let pw = fixed_pow(rf, gamma);
        let base = 255 * pw;
        result = match base.checked_mul(brightness) {
            Some(w) => {
                let q = w / (SCALE * SCALE);
                if q > 255 {
                    255
                } else {
                    q as u8
                }
            },
            None => {
                proof {
                    lemma_div_is_ordered(
                        u64::MAX as int + 1,
                        base as int * brightness as int,
                        SCALE as int * SCALE as int,
                    );
                }
                255
            },
        };
    }
    proof {
        reveal(scaled_channel);
    }
    result
}

/// Maps a fixed-point position to its color, with gamma correction and a
/// brightness multiplier, exactly as `color_at` states. Total: any
/// position, gamma and brightness are accepted, and positions outside the
/// domain come out black.
pub fn rgb_scale(position: u64, gamma: u64, brightness: u64) -> (c: Color)
    ensures
        c == color_at(position as int, gamma as int, brightness as int),
{
    if position > 1160 * SCALE {
        proof {
            reveal(scaled_channel);
        }
        return Color { r: 0, g: 0, b: 0 };
    }
    let eff = 1160 * SCALE - position;
    let (r_raw, g_raw, b_raw): (u64, u64, u64) = if eff >= 380 * SCALE && eff < 440 * SCALE {
        (ramp(440 * SCALE - eff, 60), 0, SCALE)
    } else if eff >= 440 * SCALE && eff < 490 * SCALE {
        (0, ramp(eff - 440 * SCALE, 50), SCALE)
    } else if eff >= 490 * SCALE && eff < 510 * SCALE {
        (0, SCALE, ramp(510 * SCALE - eff, 20))
    } else if eff >= 510 * SCALE && eff < 580 * SCALE {
        (ramp(eff - 510 * SCALE, 70), SCALE, 0)
    } else if eff >= 580 * SCALE && eff < 645 * SCALE {
        (SCALE, ramp(645 * SCALE - eff, 65), 0)
    } else if eff >= 645 * SCALE && eff < 781 * SCALE {
        (SCALE, 0, 0)
    } else {
        (0, 0, 0)
    };
    let factor: u64 = if eff >= 380 * SCALE && eff < 420 * SCALE {
        proof {
            lemma_div_is_ordered(7 * (eff as int - 380 * SCALE as int), 400 * 700000int, 400);
            lemma_div_multiples_vanish(700000int, 400);
        }
        300000 + 7 * (eff - 380 * SCALE) / 400
    } else if eff >= 420 * SCALE && eff < 701 * SCALE {
        SCALE
    } else if eff >= 701 * SCALE && eff < 781 * SCALE {
        if eff >= 780 * SCALE {
            proof {
                lemma_div_is_ordered(7 * (eff as int - 780 * SCALE as int), 800 * 8750int, 800);
                lemma_div_multiples_vanish(8750int, 800);
            }
            300000 - 7 * (eff - 780 * SCALE) / 800
        } else {
            proof {
                lemma_div_is_ordered(7 * (780 * SCALE as int - eff as int), 800 * 700000int, 800);
                lemma_div_multiples_vanish(700000int, 800);
            }
            300000 + 7 * (780 * SCALE - eff) / 800
        }
    } else {
        0
    };
    Color {
        r: scale_one(r_raw, factor, gamma, brightness),
        g: scale_one(g_raw, factor, gamma, brightness),
        b: scale_one(b_raw, factor, gamma, brightness),
    }
}

/// Positions outside the meaningful domain map to black: everything at or
/// below 379 units and everything at or above 781 units. (Positions
/// strictly between 379 and 380 units mirror into the red band and are
/// not black.)
pub proof fn lemma_black_outside_domain(p: int, gamma: int, brightness: int)
    requires
        p <= 379 * SCALE as int || p >= 781 * SCALE as int,
    ensures
        color_at(p, gamma, brightness) == (Color { r: 0, g: 0, b: 0 }),
{
    reveal(scaled_channel);
}

/// A channel whose raw band intensity is exactly zero scales to zero for
/// every gamma and brightness: no `0^x == 1` artifact.
pub proof fn lemma_zero_raw_stays_zero(p: int, gamma: int, brightness: int)
    ensures
        raw_rgb(1160 * SCALE as int - p).0 == 0 ==> color_at(p, gamma, brightness).r == 0,
        raw_rgb(1160 * SCALE as int - p).1 == 0 ==> color_at(p, gamma, brightness).g == 0,
        raw_rgb(1160 * SCALE as int - p).2 == 0 ==> color_at(p, gamma, brightness).b == 0,
{
    reveal(scaled_channel);
}

/// Each raw band intensity lies within one unit.
pub proof fn lemma_raw_rgb_range(eff: int)
    ensures
        0 <= raw_rgb(eff).0 <= SCALE,
        0 <= raw_rgb(eff).1 <= SCALE,
        0 <= raw_rgb(eff).2 <= SCALE,
{
    if 380 * SCALE as int <= eff < 440 * SCALE as int {
        lemma_div_pos_is_pos(440 * SCALE as int - eff, 60);
        lemma_div_is_ordered(440 * SCALE as int - eff, 60 * SCALE as int, 60);
        lemma_div_multiples_vanish(SCALE as int, 60);
    } else if 440 * SCALE as int <= eff < 490 * SCALE as int {
        lemma_div_pos_is_pos(eff - 440 * SCALE as int, 50);
        lemma_div_is_ordered(eff - 440 * SCALE as int, 50 * SCALE as int, 50);
        lemma_div_multiples_vanish(SCALE as int, 50);
    } else if 490 * SCALE as int <= eff < 510 * SCALE as int {
        lemma_div_pos_is_pos(510 * SCALE as int - eff, 20);
        lemma_div_is_ordered(510 * SCALE as int - eff, 20 * SCALE as int, 20);
        lemma_div_multiples_vanish(SCALE as int, 20);
    } else if 510 * SCALE as int <= eff < 580 * SCALE as int {
        lemma_div_pos_is_pos(eff - 510 * SCALE as int, 70);
        lemma_div_is_ordered(eff - 510 * SCALE as int, 70 * SCALE as int, 70);
        lemma_div_multiples_vanish(SCALE as int, 70);
    } else if 580 * SCALE as int <= eff < 645 * SCALE as int {
        lemma_div_pos_is_pos(645 * SCALE as int - eff, 65);
        lemma_div_is_ordered(645 * SCALE as int - eff, 65 * SCALE as int, 65);
        lemma_div_multiples_vanish(SCALE as int, 65);
    }
}

/// The edge factor lies within one unit.
pub proof fn lemma_edge_factor_range(eff: int)
    ensures
        0 <= edge_factor(eff) <= SCALE,
{
    if 380 * SCALE as int <= eff < 420 * SCALE as int {
        lemma_div_pos_is_pos(7 * (eff - 380 * SCALE as int), 400);
        lemma_div_is_ordered(7 * (eff - 380 * SCALE as int), 400 * 700000int, 400);
        lemma_div_multiples_vanish(700000int, 400);
    } else if 701 * SCALE as int <= eff < 781 * SCALE as int {
        if eff >= 780 * SCALE as int {
            lemma_div_pos_is_pos(7 * (eff - 780 * SCALE as int), 800);
            lemma_div_is_ordered(7 * (eff - 780 * SCALE as int), 800 * 8750int, 800);
            lemma_div_multiples_vanish(8750int, 800);
        } else {
            lemma_div_pos_is_pos(7 * (780 * SCALE as int - eff), 800);
            lemma_div_is_ordered(7 * (780 * SCALE as int - eff), 800 * 700000int, 800);
            lemma_div_multiples_vanish(700000int, 800);
        }
    }
}

/// For any position and any non-negative gamma and brightness, every
/// channel value lies in `[0, 255]`.
pub proof fn lemma_channel_bounds(p: int, gamma: int, brightness: int)
    requires
        0 <= gamma,
        0 <= brightness,
    ensures
        0 <= rgb_channels(p, gamma, brightness).0 <= 255,
        0 <= rgb_channels(p, gamma, brightness).1 <= 255,
        0 <= rgb_channels(p, gamma, brightness).2 <= 255,
{
    let eff = 1160 * SCALE as int - p;
    let raw = raw_rgb(eff);
    let factor = edge_factor(eff);
    lemma_raw_rgb_range(eff);
    lemma_edge_factor_range(eff);
    lemma_scaled_channel_bounds(raw.0, factor, gamma, brightness);
    lemma_scaled_channel_bounds(raw.1, factor, gamma, brightness);
    lemma_scaled_channel_bounds(raw.2, factor, gamma, brightness);
}

proof fn lemma_scaled_channel_bounds(raw: int, factor: int, gamma: int, brightness: int)
    requires
        0 <= raw <= SCALE,
        0 <= factor <= SCALE,
        0 <= gamma,
        0 <= brightness,
    ensures
        0 <= scaled_channel(raw, factor, gamma, brightness) <= 255,
{
    reveal(scaled_channel);
    if raw != 0 {
        assert(0 <= raw * factor <= SCALE as int * SCALE as int) by (nonlinear_arith)
            requires
                0 <= raw <= SCALE as int,
                0 <= factor <= SCALE as int,
        ;
        lemma_div_pos_is_pos(raw * factor, SCALE as int);
        lemma_div_is_ordered(raw * factor, SCALE as int * SCALE as int, SCALE as int);
        lemma_div_multiples_vanish(SCALE as int, SCALE as int);
        let rf = mul_fp(raw, factor);
        lemma_pow_fp_range(rf, gamma);
        let pw = pow_fp(rf, gamma);
        lemma_mul_nonnegative(255 * pw, brightness);
        lemma_div_pos_is_pos(255 * pw * brightness, SCALE as int * SCALE as int);
    }
}

/// Band continuity: at each boundary between two adjacent bands, the lower
/// band's formula and the upper band's formula give the same raw channel
/// intensities, so the spectrum has no jump where the bands meet.
pub proof fn lemma_band_continuity()
    ensures
        band_violet(440 * SCALE as int) == band_blue(440 * SCALE as int),
        band_blue(490 * SCALE as int) == band_cyan(490 * SCALE as int),
        band_cyan(510 * SCALE as int) == band_green(510 * SCALE as int),
        band_green(580 * SCALE as int) == band_orange(580 * SCALE as int),
        band_orange(645 * SCALE as int) == band_red(645 * SCALE as int),
{
}

/// The spectrum mapper is a pure function: two colors obtained for the
/// same position, gamma and brightness are identical, however many times
/// the mapping is evaluated.
pub proof fn lemma_color_deterministic(p: int, gamma: int, brightness: int, c1: Color, c2: Color)
    requires
        c1 == color_at(p, gamma, brightness),
        c2 == color_at(p, gamma, brightness),
    ensures
        c1 == c2,
{
}

} // verus!
