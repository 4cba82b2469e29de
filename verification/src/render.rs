//! The rendering pipeline: device-to-domain sites and the RGBA raster.
//!
//! Each output pixel maps to a domain site (optionally shrunk toward the
//! domain center by an edge-crop factor). The caller queries an outside
//! elevation field at every site and at a second site offset by a fixed
//! comparison distance, and hands the optional altitudes back; a pixel
//! either of whose queries returned nothing stays fully transparent, which
//! is not an error. A drawn pixel takes its base color from the ramp at the
//! altitude's fraction of the maximum altitude, hillshaded and dithered in
//! color mode, unshaded in grayscale mode, with the alpha byte always opaque.

use vstd::prelude::*;

verus! {

use vstd::arithmetic::div_mod::{
    lemma_div_pos_is_pos,
    lemma_div_is_ordered,
    lemma_div_multiples_vanish,
    lemma_fundamental_div_mod_converse,
};
use crate::node::{FP_ONE, coord_ok, COORD_LIMIT};
use crate::ramp::{
    ramp_lookup,
    ramp_lookup_exec,
    terrain_palette,
    terrain_palette_spec,
    grayscale_palette,
    grayscale_palette_spec,
};
use crate::shade::{ALT_LIMIT, DITHER_FP, prop_of, prop_exec, shade_pixel, shaded_channel};
use crate::sample::{rng_from_seed, rng_below};

/// The fixed comparison distance, in domain units: the second elevation query
/// of a pixel is offset by this along both axes.
pub const CMP_DIST: i64 = 500;

/// Largest raster side length the site arithmetic accepts.
pub const SIDE_LIMIT: usize = 1_000_000;

/// The domain coordinate sampled for device coordinate `p` of `size`, with
/// the sampled span of `bound` shrunk toward the center by the fixed-point
/// crop factor `crop`.
pub open spec fn site_coord(bound: int, size: int, crop: int, p: int) -> int {
    bound * ((FP_ONE - crop) * size + 2 * crop * p) / (2 * size * FP_ONE)
}

/// Computes `site_coord`; the result stays inside `[0, bound]`.
fn site_coord_exec(bound: i64, size: usize, crop: i64, p: usize) -> (r: i64)
    requires
        0 <= bound <= COORD_LIMIT,
        1 <= size <= SIDE_LIMIT,
        p < size,
        1 <= crop <= FP_ONE,
    ensures
        r == site_coord(bound as int, size as int, crop as int, p as int),
        0 <= r <= bound,
{
    proof {
        assert(0 <= (FP_ONE - crop) * size + 2 * crop * p && (FP_ONE - crop) * size + 2 * crop * p
            <= 2 * size * FP_ONE && 2 * size * FP_ONE <= 2_000_000_000 && 0 <= bound * ((FP_ONE
            - crop) * size + 2 * crop * p) <= bound * (2 * size * FP_ONE)) by (nonlinear_arith)
            requires
                0 <= bound,
                1 <= size,
                size <= 1_000_000,
                p < size,
                1 <= crop <= FP_ONE,
                FP_ONE == 1000,
        ;
        assert(bound * (2 * size * FP_ONE) <= 3_000_000_000_000_000_000) by (nonlinear_arith)
            requires
                0 <= bound <= 1_000_000_000,
                0 <= 2 * size * FP_ONE <= 2_000_000_000,
                FP_ONE == 1000,
        ;
        let num = bound as int * ((FP_ONE - crop) * size + 2 * crop * p);
        let den = 2 * (size as int) * FP_ONE;
        lemma_div_pos_is_pos(num, den);
        lemma_div_is_ordered(num, bound as int * den, den);
        lemma_div_multiples_vanish(bound as int, den);
        assert(den * bound == bound * den) by (nonlinear_arith);
    }
    let inner: i64 = (FP_ONE - crop) * (size as i64) + 2 * crop * (p as i64);
    bound * inner / (2 * (size as i64) * FP_ONE)
}

/// The domain sites of a raster, row-major: entry `k` is the site of the
/// pixel in column `k % width` of row `k / width`.
pub fn render_sites(
    image_width: usize,
    image_height: usize,
    bound_x: i64,
    bound_y: i64,
    crop: i64,
) -> (r: Vec<(i64, i64)>)
    requires
        1 <= image_width <= SIDE_LIMIT,
        1 <= image_height <= SIDE_LIMIT,
        0 <= bound_x <= COORD_LIMIT,
        0 <= bound_y <= COORD_LIMIT,
        1 <= crop <= FP_ONE,
    ensures
        r@.len() == image_width * image_height,
        forall|k: int|
            0 <= k < r@.len() ==> (#[trigger] r@[k]).0 == site_coord(
                bound_x as int,
                image_width as int,
                crop as int,
                k % (image_width as int),
            ) && r@[k].1 == site_coord(
                bound_y as int,
                image_height as int,
                crop as int,
                k / (image_width as int),
            ),
        forall|k: int|
            0 <= k < r@.len() ==> 0 <= (#[trigger] r@[k]).0 <= bound_x && 0 <= r@[k].1 <= bound_y,
{
    let w = image_width;
    let h = image_height;
    let mut r: Vec<(i64, i64)> = Vec::new();
    let mut py: usize = 0;
    proof {
        assert(w * h <= 1_000_000_000_000) by (nonlinear_arith)
            requires
                w <= 1_000_000,
                h <= 1_000_000,
        ;
    }
    while py < h
        invariant
            py <= h,
            1 <= w <= SIDE_LIMIT,
            1 <= h <= SIDE_LIMIT,
            w * h <= 1_000_000_000_000,
            0 <= bound_x <= COORD_LIMIT,
            0 <= bound_y <= COORD_LIMIT,
            1 <= crop <= FP_ONE,
            r@.len() == py * w,
            forall|k: int|
                0 <= k < r@.len() ==> (#[trigger] r@[k]).0 == site_coord(
                    bound_x as int,
                    w as int,
                    crop as int,
                    k % (w as int),
                ) && r@[k].1 == site_coord(bound_y as int, h as int, crop as int, k / (w as int)),
            forall|k: int|
                0 <= k < r@.len() ==> 0 <= (#[trigger] r@[k]).0 <= bound_x && 0 <= r@[k].1
                    <= bound_y,
        decreases h - py,
    {
        let mut px: usize = 0;
        proof {
            assert(py * w + w <= h * w && h * w == w * h) by (nonlinear_arith)
                requires
                    py < h,
                    w >= 0,
            ;
        }
        while px < w
            invariant
                px <= w,
                py < h,
                1 <= w <= SIDE_LIMIT,
                1 <= h <= SIDE_LIMIT,
                py * w + w <= 1_000_000_000_000,
                0 <= bound_x <= COORD_LIMIT,
                0 <= bound_y <= COORD_LIMIT,
                1 <= crop <= FP_ONE,
                r@.len() == py * w + px,
                forall|k: int|
                    0 <= k < r@.len() ==> (#[trigger] r@[k]).0 == site_coord(
                        bound_x as int,
                        w as int,
                        crop as int,
                        k % (w as int),
                    ) && r@[k].1 == site_coord(
                        bound_y as int,
                        h as int,
                        crop as int,
                        k / (w as int),
                    ),
                forall|k: int|
                    0 <= k < r@.len() ==> 0 <= (#[trigger] r@[k]).0 <= bound_x && 0 <= r@[k].1
                        <= bound_y,
            decreases w - px,
        {
            proof {
                lemma_fundamental_div_mod_converse(
                    py * w + px,
                    w as int,
                    py as int,
                    px as int,
                );
            }
            let sx = site_coord_exec(bound_x, w, crop, px);
            let sy = site_coord_exec(bound_y, h, crop, py);
            r.push((sx, sy));
            px = px + 1;
        }
        py = py + 1;
        proof {
            assert((py - 1) * w + w == py * w) by (nonlinear_arith);
        }
    }
    proof {
        assert(h * w == w * h) by (nonlinear_arith);
    }
    r
}

/// The site of the second elevation query of a pixel: the first site offset
/// by the comparison distance along both axes.
pub fn offset_site(x: i64, y: i64, cmp_dist: i64) -> (r: (i64, i64))
    requires
        0 <= x <= COORD_LIMIT,
        0 <= y <= COORD_LIMIT,
        0 <= cmp_dist <= COORD_LIMIT,
    ensures
        r.0 == x + cmp_dist,
        r.1 == y + cmp_dist,
{
    (x + cmp_dist, y + cmp_dist)
}

/// The color of a drawn grayscale pixel: the gray ramp looked up at the
/// altitude's fraction of the maximum altitude; no shading and no dither.
pub open spec fn gray_pixel(alt: int) -> (int, int, int) {
    ramp_lookup(grayscale_palette_spec(), prop_of(alt))
}

/// A grayscale pixel is gray: the three channels of `gray_pixel` are equal
/// for every altitude, so every pixel a grayscale rendering draws has equal
/// red, green and blue.
pub proof fn lemma_gray_pixel_channels_equal(alt: int)
    ensures
        gray_pixel(alt).0 == gray_pixel(alt).1,
        gray_pixel(alt).1 == gray_pixel(alt).2,
{
    crate::ramp::lemma_gray_ramp_gray(grayscale_palette_spec(), prop_of(alt));
}

/// The color of a drawn color pixel: the terrain ramp looked up at the
/// altitude's fraction of the maximum altitude, hillshaded with the altitude
/// pair and dither term.
pub open spec fn color_pixel(alt: int, alt2: int, dither: int) -> (int, int, int) {
    let base = ramp_lookup(terrain_palette_spec(), prop_of(alt));
    (
        shaded_channel(base.0, alt, alt2, dither),
        shaded_channel(base.1, alt, alt2, dither),
        shaded_channel(base.2, alt, alt2, dither),
    )
}

/// Renders the RGBA raster from the altitudes queried at each pixel's site
/// (`alts`) and at its offset site (`alts2`). A pixel with a missing
/// altitude stays fully transparent; every drawn pixel is opaque, exactly
/// the ramp color in grayscale mode, and the ramp color hillshaded with some
/// dither term below `DITHER_FP` in color mode. The dither draws come from a
/// generator seeded with `seed`, so a fixed seed and fixed inputs reproduce
/// the buffer byte for byte.
pub fn render_pixels(
    grayscale: bool,
    alts: &Vec<Option<i64>>,
    alts2: &Vec<Option<i64>>,
    seed: u64,
) -> (r: Vec<u8>)
    requires
        alts@.len() == alts2@.len(),
        4 * alts@.len() <= usize::MAX,
        forall|k: int|
            0 <= k < alts@.len() ==> ((#[trigger] alts@[k]) matches Some(a) ==> -ALT_LIMIT <= a
                <= ALT_LIMIT),
        forall|k: int|
            0 <= k < alts2@.len() ==> ((#[trigger] alts2@[k]) matches Some(a) ==> -ALT_LIMIT <= a
                <= ALT_LIMIT),
    ensures
        r@.len() == 4 * alts@.len(),
        forall|k: int|
            0 <= k < alts@.len() && ((#[trigger] alts@[k]) is None || alts2@[k] is None) ==> r@[4
                * k] == 0 && r@[4 * k + 1] == 0 && r@[4 * k + 2] == 0 && r@[4 * k + 3] == 0,
        forall|k: int|
            0 <= k < alts@.len() && (#[trigger] alts@[k]) is Some && alts2@[k] is Some ==> r@[4 * k
                + 3] == 255,
        grayscale ==> forall|k: int|
            0 <= k < alts@.len() && (#[trigger] alts@[k]) is Some && alts2@[k] is Some ==> (
            r@[4 * k] as int,
            r@[4 * k + 1] as int,
            r@[4 * k + 2] as int,
            ) == gray_pixel(alts@[k]->0 as int),
        !grayscale ==> forall|k: int|
            0 <= k < alts@.len() && (#[trigger] alts@[k]) is Some && alts2@[k] is Some ==> exists|
                d: int,
            |
                0 <= d < DITHER_FP && (r@[4 * k] as int, r@[4 * k + 1] as int, r@[4 * k + 2] as int)
                    == color_pixel(alts@[k]->0 as int, alts2@[k]->0 as int, d),
{
    let n = alts.len();
    let palette = if grayscale {
        grayscale_palette()
    } else {
        terrain_palette()
    };
    let mut rng = rng_from_seed(seed);
    let mut r: Vec<u8> = Vec::new();
    let mut k: usize = 0;
    while k < n
        invariant
            k <= n,
            n == alts@.len(),
            alts@.len() == alts2@.len(),
            4 * n <= usize::MAX,
            forall|j: int|
                0 <= j < alts@.len() ==> ((#[trigger] alts@[j]) matches Some(a) ==> -ALT_LIMIT <= a
                    <= ALT_LIMIT),
            forall|j: int|
                0 <= j < alts2@.len() ==> ((#[trigger] alts2@[j]) matches Some(a) ==> -ALT_LIMIT
                    <= a <= ALT_LIMIT),
            palette@ == if grayscale {
                grayscale_palette_spec()
            } else {
                terrain_palette_spec()
            },
            crate::ramp::ramp_wf(palette@),
            r@.len() == 4 * k,
            forall|j: int|
                0 <= j < k && ((#[trigger] alts@[j]) is None || alts2@[j] is None) ==> r@[4 * j]
                    == 0 && r@[4 * j + 1] == 0 && r@[4 * j + 2] == 0 && r@[4 * j + 3] == 0,
            forall|j: int|
                0 <= j < k && (#[trigger] alts@[j]) is Some && alts2@[j] is Some ==> r@[4 * j + 3]
                    == 255,
            grayscale ==> forall|j: int|
                0 <= j < k && (#[trigger] alts@[j]) is Some && alts2@[j] is Some ==> (
                r@[4 * j] as int,
                r@[4 * j + 1] as int,
                r@[4 * j + 2] as int,
                ) == gray_pixel(alts@[j]->0 as int),
            !grayscale ==> forall|j: int|
                0 <= j < k && (#[trigger] alts@[j]) is Some && alts2@[j] is Some ==> exists|d: int|
                    0 <= d < DITHER_FP && (
                    r@[4 * j] as int,
                    r@[4 * j + 1] as int,
                    r@[4 * j + 2] as int,
                    ) == color_pixel(alts@[j]->0 as int, alts2@[j]->0 as int, d),
        decreases n - k,
    {
        let a_opt = alts[k];
        let b_opt = alts2[k];
        match (a_opt, b_opt) {
            (Some(alt), Some(alt2)) => {
                let prop = prop_exec(alt);
                let base = ramp_lookup_exec(&palette, prop);
                if grayscale {
                    r.push(base.0);
                    r.push(base.1);
                    r.push(base.2);
                    r.push(255);
                } else {
                    let d = rng_below(&mut rng, DITHER_FP as u64) as i64;
                    let shaded = shade_pixel(base, alt, alt2, d);
                    r.push(shaded.0);
                    r.push(shaded.1);
                    r.push(shaded.2);
                    r.push(255);
                    proof {
                        assert(0 <= d < DITHER_FP && (
                        r@[4 * k as int] as int,
                        r@[4 * k as int + 1] as int,
                        r@[4 * k as int + 2] as int,
                        ) == color_pixel(alt as int, alt2 as int, d as int));
                    }
                }
            },
            _ => {
                r.push(0);
                r.push(0);
                r.push(0);
                r.push(0);
            },
        }
        k = k + 1;
    }
    r
}

} // verus!
