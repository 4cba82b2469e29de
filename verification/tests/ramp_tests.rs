use landform::ramp::{grayscale_palette, ramp_lookup_exec, terrain_palette, ColorStop};

#[test]
fn lookup_at_every_breakpoint_is_exact() {
    let pal = terrain_palette();
    let expected = [
        (0, (50u8, 130u8, 200u8)),
        (5, (240, 240, 210)),
        (50, (190, 200, 120)),
        (200, (180, 200, 80)),
        (750, (25, 100, 25)),
        (1000, (15, 60, 15)),
    ];
    for (pos, color) in expected {
        assert_eq!(ramp_lookup_exec(&pal, pos), color, "breakpoint {}", pos);
    }
}

#[test]
fn lookup_clamps_to_endpoint_colors() {
    let pal = terrain_palette();
    assert_eq!(ramp_lookup_exec(&pal, -250), (50, 130, 200));
    assert_eq!(ramp_lookup_exec(&pal, 0), (50, 130, 200));
    assert_eq!(ramp_lookup_exec(&pal, 1000), (15, 60, 15));
    assert_eq!(ramp_lookup_exec(&pal, 400_000), (15, 60, 15));
}

#[test]
fn lookup_interpolates_inside_a_segment() {
    let pal = terrain_palette();
    // Midway-ish inside the segment from position 5 to position 50.
    // red: (240 * 25 + 190 * 20) / 45 = 9800 / 45 = 217
    // green: (240 * 25 + 200 * 20) / 45 = 10000 / 45 = 222
    // blue: (210 * 25 + 120 * 20) / 45 = 7650 / 45 = 170
    assert_eq!(ramp_lookup_exec(&pal, 25), (217, 222, 170));
}

#[test]
fn lookup_is_monotone_within_segments() {
    let pal = terrain_palette();
    // From (240,240,210)@5 to (190,200,120)@50 every channel falls.
    let mut prev = ramp_lookup_exec(&pal, 5);
    for p in 6..=49 {
        let cur = ramp_lookup_exec(&pal, p);
        assert!(cur.0 <= prev.0 && cur.1 <= prev.1 && cur.2 <= prev.2);
        prev = cur;
    }
}

#[test]
fn grayscale_lookup_has_equal_channels() {
    let pal = grayscale_palette();
    for p in [-10, 0, 1, 127, 500, 999, 1000, 4000] {
        let (r, g, b) = ramp_lookup_exec(&pal, p);
        assert_eq!(r, g);
        assert_eq!(g, b);
    }
    // Halfway up the gray ramp: 255 * 500 / 1000 = 127.
    assert_eq!(ramp_lookup_exec(&pal, 500), (127, 127, 127));
}

#[test]
fn custom_ramp_breakpoints_are_exact() {
    let stops = vec![
        ColorStop { red: 10, green: 20, blue: 30, pos: 0 },
        ColorStop { red: 110, green: 120, blue: 130, pos: 400 },
        ColorStop { red: 210, green: 220, blue: 230, pos: 1000 },
    ];
    assert_eq!(ramp_lookup_exec(&stops, 0), (10, 20, 30));
    assert_eq!(ramp_lookup_exec(&stops, 400), (110, 120, 130));
    assert_eq!(ramp_lookup_exec(&stops, 1000), (210, 220, 230));
    // Halfway between 0 and 400.
    assert_eq!(ramp_lookup_exec(&stops, 200), (60, 70, 80));
}
