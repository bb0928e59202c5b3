use alpha_bleed::Raster;
use alpha_bleed::Rgba;
use alpha_bleed::alpha_bleed;
use alpha_bleed::make_opaque;

fn px(r: u8, g: u8, b: u8, a: u8) -> Rgba {
    Rgba { r, g, b, a }
}

fn clear() -> Rgba {
    px(0, 0, 0, 0)
}

/// Scenario: 3x1 row, alpha [255, 0, 0], thickness 1. The middle pixel has
/// exactly one sampleable neighbor and copies its RGB; the far pixel is two
/// steps away and stays cleared.
#[test]
fn three_by_one_single_source() {
    let mut r = Raster::new(3, 1, clear());
    r.set(0, 0, px(17, 34, 51, 255));
    alpha_bleed(&mut r, 1);
    assert_eq!(r.get(0, 0), px(17, 34, 51, 255));
    assert_eq!(r.get(1, 0), px(17, 34, 51, 0));
    assert_eq!(r.get(2, 0), clear());
}

/// Scenario: a fully transparent 3x3 image has no seed, so the queue starts
/// empty and the whole output is cleared.
#[test]
fn all_transparent_is_cleared() {
    let mut r = Raster::new(3, 3, px(9, 8, 7, 0));
    alpha_bleed(&mut r, 1);
    for y in 0..3 {
        for x in 0..3 {
            assert_eq!(r.get(x, y), clear());
        }
    }
}

/// Scenario: a single opaque pixel at the center of a 3x3 grid bleeds its
/// exact RGB into all eight neighbors in one round.
#[test]
fn center_bleeds_to_all_eight() {
    let mut r = Raster::new(3, 3, clear());
    r.set(1, 1, px(200, 100, 50, 255));
    alpha_bleed(&mut r, 1);
    for y in 0..3 {
        for x in 0..3 {
            if x == 1 && y == 1 {
                assert_eq!(r.get(x, y), px(200, 100, 50, 255));
            } else {
                assert_eq!(r.get(x, y), px(200, 100, 50, 0));
            }
        }
    }
}

/// Scenario: zero thickness is the classification sweep alone: opaque
/// pixels kept, every transparent pixel cleared, no propagation.
#[test]
fn zero_thickness_clears_only() {
    let mut r = Raster::new(2, 2, px(120, 130, 140, 0));
    r.set(0, 0, px(1, 2, 3, 77));
    alpha_bleed(&mut r, 0);
    assert_eq!(r.get(0, 0), px(1, 2, 3, 77));
    assert_eq!(r.get(1, 0), clear());
    assert_eq!(r.get(0, 1), clear());
    assert_eq!(r.get(1, 1), clear());
}

/// Alpha invariant on a mixed image: opaque pixels are byte-for-byte
/// unchanged, all other pixels end with alpha 0.
#[test]
fn alpha_invariant_holds() {
    let mut r = Raster::new(4, 3, px(50, 60, 70, 0));
    r.set(1, 1, px(10, 20, 30, 128));
    r.set(3, 0, px(5, 6, 7, 1));
    alpha_bleed(&mut r, 2);
    assert_eq!(r.get(1, 1), px(10, 20, 30, 128));
    assert_eq!(r.get(3, 0), px(5, 6, 7, 1));
    for y in 0..3 {
        for x in 0..4 {
            if (x, y) != (1, 1) && (x, y) != (3, 0) {
                assert_eq!(r.get(x, y).a, 0);
            }
        }
    }
}

/// Idempotence: bleeding a bled image again with the same thickness
/// changes nothing.
#[test]
fn bleed_twice_equals_once() {
    let mut once = Raster::new(5, 4, clear());
    once.set(2, 1, px(200, 10, 90, 255));
    once.set(0, 3, px(30, 40, 50, 9));
    let mut twice = Raster::new(5, 4, clear());
    twice.set(2, 1, px(200, 10, 90, 255));
    twice.set(0, 3, px(30, 40, 50, 9));
    alpha_bleed(&mut once, 2);
    alpha_bleed(&mut twice, 2);
    alpha_bleed(&mut twice, 2);
    for y in 0..4 {
        for x in 0..5 {
            assert_eq!(once.get(x, y), twice.get(x, y));
        }
    }
}

/// Bounded spread: a pixel farther than `thickness` 8-connected steps from
/// every opaque pixel stays exactly (0, 0, 0, 0).
#[test]
fn spread_is_bounded_by_thickness() {
    let mut r = Raster::new(6, 1, clear());
    r.set(0, 0, px(255, 255, 255, 255));
    alpha_bleed(&mut r, 2);
    assert_eq!(r.get(1, 0), px(255, 255, 255, 0));
    assert_eq!(r.get(2, 0), px(255, 255, 255, 0));
    assert_eq!(r.get(3, 0), clear());
    assert_eq!(r.get(4, 0), clear());
    assert_eq!(r.get(5, 0), clear());
}

/// Monotonic growth: every pixel that gets a color at some thickness also
/// gets one at any larger thickness, with the same value on early rings.
#[test]
fn larger_thickness_covers_more() {
    let mut small = Raster::new(5, 1, clear());
    small.set(0, 0, px(80, 90, 100, 255));
    let mut large = Raster::new(5, 1, clear());
    large.set(0, 0, px(80, 90, 100, 255));
    alpha_bleed(&mut small, 1);
    alpha_bleed(&mut large, 3);
    for x in 0..5 {
        let s = small.get(x, 0);
        let l = large.get(x, 0);
        if s != clear() {
            assert_eq!(s, l);
        }
    }
    assert_eq!(large.get(3, 0), px(80, 90, 100, 0));
    assert_eq!(small.get(3, 0), clear());
}

/// The resolved color is the integer-truncated per-channel average of the
/// sampleable neighbors: (10 + 255) / 2 = 132 on the red channel.
#[test]
fn average_is_truncated() {
    let mut r = Raster::new(3, 1, clear());
    r.set(0, 0, px(10, 20, 30, 255));
    r.set(2, 0, px(255, 0, 0, 255));
    alpha_bleed(&mut r, 1);
    assert_eq!(r.get(1, 0), px(132, 10, 15, 0));
}

/// A second ring copies from the first ring, not from the seed pass: the
/// pixel at distance two takes the resolved color of the pixel at distance
/// one.
#[test]
fn second_ring_samples_first_ring() {
    let mut r = Raster::new(4, 1, clear());
    r.set(0, 0, px(100, 150, 200, 255));
    alpha_bleed(&mut r, 3);
    assert_eq!(r.get(1, 0), px(100, 150, 200, 0));
    assert_eq!(r.get(2, 0), px(100, 150, 200, 0));
    assert_eq!(r.get(3, 0), px(100, 150, 200, 0));
}

/// A raster with no pixels is handled as a no-op.
#[test]
fn empty_raster_is_no_op() {
    let mut r = Raster::new(0, 0, clear());
    alpha_bleed(&mut r, 5);
    let mut row = Raster::new(4, 0, clear());
    alpha_bleed(&mut row, 1);
}

/// Translucent pixels (alpha strictly between 0 and 255) count as color
/// sources and are themselves left untouched.
#[test]
fn translucent_pixels_are_sources() {
    let mut r = Raster::new(2, 1, clear());
    r.set(0, 0, px(44, 55, 66, 3));
    alpha_bleed(&mut r, 1);
    assert_eq!(r.get(0, 0), px(44, 55, 66, 3));
    assert_eq!(r.get(1, 0), px(44, 55, 66, 0));
}

/// Forcing opacity keeps every color channel and sets every alpha to 255.
#[test]
fn make_opaque_forces_alpha() {
    let mut r = Raster::new(2, 2, px(1, 2, 3, 0));
    r.set(1, 1, px(9, 8, 7, 255));
    r.set(0, 1, px(4, 5, 6, 100));
    make_opaque(&mut r);
    assert_eq!(r.get(0, 0), px(1, 2, 3, 255));
    assert_eq!(r.get(1, 0), px(1, 2, 3, 255));
    assert_eq!(r.get(0, 1), px(4, 5, 6, 255));
    assert_eq!(r.get(1, 1), px(9, 8, 7, 255));
}
