use inky::ColourSpace;
use inky::EuclideanDistance;
use inky::Palette;
use inky::PaletteError;
use inky::Rgb;

fn rgb(r: u8, g: u8, b: u8) -> Rgb {
    Rgb { r, g, b }
}

#[test]
fn distance_sq_is_sum_of_squared_channel_differences() {
    let d = ColourSpace::RGB.distance_sq(rgb(10, 20, 30), rgb(13, 16, 30));
    assert_eq!(d, 9 + 16);
    assert_eq!(ColourSpace::RGB.distance_sq(rgb(0, 0, 0), rgb(255, 255, 255)), 3 * 255 * 255);
}

#[test]
fn distance_sq_zero_only_on_equal_colours() {
    assert_eq!(ColourSpace::RGB.distance_sq(rgb(1, 2, 3), rgb(1, 2, 3)), 0);
    assert!(ColourSpace::RGB.distance_sq(rgb(1, 2, 3), rgb(1, 2, 4)) > 0);
}

#[test]
fn palette_colour_is_its_own_closest() {
    let colours = vec![rgb(0, 0, 0), rgb(200, 10, 10), rgb(0, 200, 50), rgb(255, 255, 255)];
    let pal = Palette::new_from(colours.clone());
    for c in colours {
        assert_eq!(pal.closest_colour(ColourSpace::RGB, &c), c);
    }
}

#[test]
fn single_colour_palette_always_returns_its_colour() {
    let pal = Palette::new_from(vec![rgb(12, 34, 56)]);
    assert_eq!(pal.closest_colour(ColourSpace::RGB, &rgb(0, 0, 0)), rgb(12, 34, 56));
    assert_eq!(pal.closest_colour(ColourSpace::RGB, &rgb(255, 255, 255)), rgb(12, 34, 56));
    assert_eq!(pal.closest_colour(ColourSpace::RGB, &rgb(12, 34, 56)), rgb(12, 34, 56));
}

#[test]
fn ties_go_to_the_lower_index() {
    // 90 and 110 are equidistant from 100; the lower-index entry must win,
    // reproducibly over repeated calls.
    let pal = Palette::new_from(vec![rgb(90, 0, 0), rgb(110, 0, 0)]);
    for _ in 0..10 {
        assert_eq!(pal.closest_colour(ColourSpace::RGB, &rgb(100, 0, 0)), rgb(90, 0, 0));
    }
    // the same two entries in the other order: still the lower index
    let pal2 = Palette::new_from(vec![rgb(110, 0, 0), rgb(90, 0, 0)]);
    assert_eq!(pal2.closest_colour(ColourSpace::RGB, &rgb(100, 0, 0)), rgb(110, 0, 0));
}

#[test]
fn to_idx_returns_first_exact_match() {
    let pal = Palette::new_from(vec![rgb(1, 1, 1), rgb(2, 2, 2), rgb(2, 2, 2), rgb(3, 3, 3)]);
    assert_eq!(pal.to_idx(&rgb(1, 1, 1)), 0);
    assert_eq!(pal.to_idx(&rgb(2, 2, 2)), 1);
    assert_eq!(pal.to_idx(&rgb(3, 3, 3)), 3);
}

#[test]
fn to_idx_of_a_missing_colour_is_zero() {
    let pal = Palette::new_from(vec![rgb(5, 5, 5), rgb(6, 6, 6)]);
    assert_eq!(pal.to_idx(&rgb(7, 7, 7)), 0);
}

#[test]
fn blend_at_zero_reproduces_the_desaturated_palette() {
    let desat = vec![rgb(10, 20, 30), rgb(200, 100, 0)];
    let sat = vec![rgb(250, 240, 230), rgb(0, 50, 100)];
    let pal = Palette::from_blend(&desat, &sat, 0, 1).unwrap();
    assert_eq!(pal.get_colours(), desat.as_slice());
}

#[test]
fn blend_at_one_reproduces_the_saturated_palette() {
    let desat = vec![rgb(10, 20, 30), rgb(200, 100, 0)];
    let sat = vec![rgb(250, 240, 230), rgb(0, 50, 100)];
    let pal = Palette::from_blend(&desat, &sat, 1, 1).unwrap();
    assert_eq!(pal.get_colours(), sat.as_slice());
}

#[test]
fn blend_rounds_halves_away_from_zero() {
    // (10 + 15) / 2 = 12.5, which rounds to 13
    let pal = Palette::from_blend(&[rgb(10, 0, 255)], &[rgb(15, 0, 0)], 1, 2).unwrap();
    assert_eq!(pal.get_colours(), [rgb(13, 0, 128)].as_slice());
}

#[test]
fn blend_truncates_to_the_shorter_palette() {
    let desat = vec![rgb(0, 0, 0), rgb(10, 10, 10), rgb(20, 20, 20)];
    let sat = vec![rgb(100, 100, 100), rgb(110, 110, 110)];
    let pal = Palette::from_blend(&desat, &sat, 0, 1).unwrap();
    assert_eq!(pal.len(), 2);
}

#[test]
fn blend_rejects_saturation_above_one() {
    let r = Palette::from_blend(&[rgb(0, 0, 0)], &[rgb(9, 9, 9)], 3, 2);
    assert!(matches!(r, Err(PaletteError::InvalidParameter)));
}

#[test]
fn blend_rejects_negative_saturation() {
    let r = Palette::from_blend(&[rgb(0, 0, 0)], &[rgb(9, 9, 9)], -1, 2);
    assert!(matches!(r, Err(PaletteError::InvalidParameter)));
}

#[test]
fn blend_rejects_a_non_positive_denominator() {
    let r = Palette::from_blend(&[rgb(0, 0, 0)], &[rgb(9, 9, 9)], 0, 0);
    assert!(matches!(r, Err(PaletteError::InvalidParameter)));
    let r2 = Palette::from_blend(&[rgb(0, 0, 0)], &[rgb(9, 9, 9)], 1, -2);
    assert!(matches!(r2, Err(PaletteError::InvalidParameter)));
}
