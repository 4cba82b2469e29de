use landform::render::{offset_site, render_pixels, render_sites};
use landform::shade::shade_pixel;

#[test]
fn missing_elevations_draw_nothing() {
    let alts: Vec<Option<i64>> = vec![None; 9];
    let alts2: Vec<Option<i64>> = vec![None; 9];
    let buf = render_pixels(false, &alts, &alts2, 42);
    assert_eq!(buf.len(), 36);
    assert!(buf.iter().all(|&b| b == 0), "no pixel may be drawn");
}

#[test]
fn one_missing_query_leaves_pixel_transparent() {
    let alts = vec![Some(1_000_000), Some(1_000_000), None];
    let alts2 = vec![Some(900_000), None, Some(900_000)];
    let buf = render_pixels(false, &alts, &alts2, 1);
    // First pixel drawn and opaque.
    assert_eq!(buf[3], 255);
    // Second and third pixels fully transparent.
    assert_eq!(&buf[4..12], &[0, 0, 0, 0, 0, 0, 0, 0]);
}

#[test]
fn grayscale_pixels_have_equal_channels() {
    let alts: Vec<Option<i64>> = (0..16).map(|i| Some(i * 150_000)).collect();
    let alts2: Vec<Option<i64>> = (0..16).map(|i| Some(i * 140_000)).collect();
    let buf = render_pixels(true, &alts, &alts2, 3);
    assert_eq!(buf.len(), 64);
    for k in 0..16 {
        assert_eq!(buf[4 * k], buf[4 * k + 1]);
        assert_eq!(buf[4 * k + 1], buf[4 * k + 2]);
        assert_eq!(buf[4 * k + 3], 255);
    }
    // Half the maximum altitude lands halfway up the gray ramp: 127.
    let alts_half = vec![Some(1_000_000)];
    let alts2_half = vec![Some(1_000_000)];
    let one = render_pixels(true, &alts_half, &alts2_half, 3);
    assert_eq!(one, vec![127, 127, 127, 255]);
}

#[test]
fn fixed_seed_and_inputs_reproduce_buffer_exactly() {
    let alts: Vec<Option<i64>> = (0..25)
        .map(|i| if i % 7 == 3 { None } else { Some(i * 90_000) })
        .collect();
    let alts2: Vec<Option<i64>> = (0..25)
        .map(|i| if i % 5 == 2 { None } else { Some(i * 80_000 + 10_000) })
        .collect();
    let first = render_pixels(false, &alts, &alts2, 9876);
    let second = render_pixels(false, &alts, &alts2, 9876);
    assert_eq!(first, second, "same seed and inputs must give identical bytes");
    assert_eq!(first.len(), 100);
}

#[test]
fn drawn_color_pixels_are_opaque() {
    let alts = vec![Some(0), Some(500_000), Some(2_500_000)];
    let alts2 = vec![Some(100_000), Some(400_000), Some(2_500_000)];
    let buf = render_pixels(false, &alts, &alts2, 5);
    for k in 0..3 {
        assert_eq!(buf[4 * k + 3], 255);
    }
}

#[test]
fn sites_cover_the_domain_row_major() {
    // No cropping: pixel column p of width 4 samples bound * p / 4.
    let sites = render_sites(4, 2, 200_000, 100_000, 1000);
    assert_eq!(sites.len(), 8);
    assert_eq!(sites[0], (0, 0));
    assert_eq!(sites[1], (50_000, 0));
    assert_eq!(sites[3], (150_000, 0));
    assert_eq!(sites[4], (0, 50_000));
    assert_eq!(sites[7], (150_000, 50_000));
}

#[test]
fn cropped_sites_shrink_toward_center() {
    // Full crop factor keeps the corner at the origin; half shrinks inward.
    let full = render_sites(4, 4, 100_000, 100_000, 1000);
    let half = render_sites(4, 4, 100_000, 100_000, 500);
    assert_eq!(full[0], (0, 0));
    // (100000 * ((1000 - 500) * 4 + 0)) / (2 * 4 * 1000) = 25000.
    assert_eq!(half[0], (25_000, 25_000));
    for k in 0..16 {
        assert!(half[k].0 >= full[k].0 / 2);
        assert!(half[k].0 <= 100_000 && half[k].1 <= 100_000);
    }
}

#[test]
fn offset_site_adds_comparison_distance() {
    assert_eq!(offset_site(1000, 2000, 500), (1500, 2500));
    assert_eq!(offset_site(0, 0, landform::render::CMP_DIST), (500, 500));
}

#[test]
fn steeper_gradient_never_brightens() {
    let color = (200u8, 180u8, 160u8);
    // Same site altitude, increasingly lower offset altitude: steeper slope.
    let flat = shade_pixel(color, 1_000_000, 1_000_000, 10);
    let steep = shade_pixel(color, 1_000_000, 400_000, 10);
    let steeper = shade_pixel(color, 1_000_000, 0, 10);
    assert!(steep.0 <= flat.0 && steep.1 <= flat.1 && steep.2 <= flat.2);
    assert!(steeper.0 <= steep.0 && steeper.1 <= steep.1 && steeper.2 <= steep.2);
    // A flat field at altitude zero keeps the full base color plus dither.
    let level = shade_pixel(color, 0, 0, 0);
    assert_eq!(level, color);
}
