use inky::ColourSpace;
use inky::ImageBuf;
use inky::Palette;
use inky::PaletteError;
use inky::Rgb;
use inky::image_to_bytes;
use inky::quantise_and_dither_image;
use inky::quantise_image;

fn rgb(r: u8, g: u8, b: u8) -> Rgb {
    Rgb { r, g, b }
}

fn grey(v: u8) -> Rgb {
    Rgb { r: v, g: v, b: v }
}

#[test]
fn quantise_replaces_each_pixel_with_its_closest_entry() {
    let pal = Palette::new_from(vec![grey(0), grey(255)]);
    let mut img = ImageBuf::new(2, 1, vec![grey(10), grey(200)]);
    quantise_image(&mut img, &pal, ColourSpace::RGB);
    assert_eq!(img.get_pixel(0, 0), grey(0));
    assert_eq!(img.get_pixel(1, 0), grey(255));
}

#[test]
fn quantising_an_image_of_exact_palette_colours_leaves_it_unchanged() {
    let colours = vec![rgb(0, 0, 0), rgb(200, 10, 10), rgb(0, 200, 50)];
    let pal = Palette::new_from(colours.clone());
    let pixels = vec![colours[2], colours[0], colours[1], colours[2], colours[1], colours[0]];
    let mut img = ImageBuf::new(3, 2, pixels.clone());
    quantise_image(&mut img, &pal, ColourSpace::RGB);
    assert_eq!(img.pixels(), pixels.as_slice());
}

#[test]
fn dither_diffuses_the_error_of_a_strictly_interior_pixel() {
    // 3 x 2 all-grey image against a black/white palette: only the pixel
    // (1, 0) is strictly interior, so only it diffuses its error.
    let pal = Palette::new_from(vec![grey(0), grey(255)]);
    let img = ImageBuf::new(3, 2, vec![grey(100); 6]);
    let out = quantise_and_dither_image(&img, &pal, ColourSpace::RGB);
    // (0,0) and (1,0) quantise to black; the diffused error pushes (2,0)
    // to 144 (-> white), (0,1) to 119 (-> black), (1,1) to 131 (-> white)
    // and (2,1) to 106 (-> black).
    assert_eq!(out.get_pixel(0, 0), grey(0));
    assert_eq!(out.get_pixel(1, 0), grey(0));
    assert_eq!(out.get_pixel(2, 0), grey(255));
    assert_eq!(out.get_pixel(0, 1), grey(0));
    assert_eq!(out.get_pixel(1, 1), grey(255));
    assert_eq!(out.get_pixel(2, 1), grey(0));
    // the input buffer is untouched
    assert_eq!(img.get_pixel(1, 0), grey(100));
}

#[test]
fn dither_on_a_narrow_image_equals_plain_quantisation() {
    // with fewer than three columns no pixel is strictly interior, so no
    // error is ever diffused
    let pal = Palette::new_from(vec![grey(0), grey(255)]);
    let pixels = vec![grey(10), grey(200), grey(99), grey(170), grey(128), grey(127)];
    let img = ImageBuf::new(2, 3, pixels.clone());
    let dithered = quantise_and_dither_image(&img, &pal, ColourSpace::RGB);
    let mut quantised = ImageBuf::new(2, 3, pixels);
    quantise_image(&mut quantised, &pal, ColourSpace::RGB);
    assert_eq!(dithered.pixels(), quantised.pixels());
}

#[test]
fn dither_on_a_single_row_equals_plain_quantisation() {
    let pal = Palette::new_from(vec![grey(0), grey(128), grey(255)]);
    let pixels = vec![grey(1), grey(77), grey(130), grey(200), grey(254)];
    let img = ImageBuf::new(5, 1, pixels.clone());
    let dithered = quantise_and_dither_image(&img, &pal, ColourSpace::RGB);
    let mut quantised = ImageBuf::new(5, 1, pixels);
    quantise_image(&mut quantised, &pal, ColourSpace::RGB);
    assert_eq!(dithered.pixels(), quantised.pixels());
}

#[test]
fn dither_never_touches_edge_pixels_of_an_exact_colour_image() {
    // an image of exact palette colours: quantisation is the identity, and
    // the corner pixel never receives error, so it stays exactly itself
    let pal = Palette::new_from(vec![grey(0), grey(255)]);
    let img = ImageBuf::new(4, 3, vec![grey(0); 12]);
    let out = quantise_and_dither_image(&img, &pal, ColourSpace::RGB);
    assert_eq!(out.get_pixel(0, 0), grey(0));
    assert_eq!(out.pixels(), img.pixels());
}

#[test]
fn packing_two_pixels_yields_one_byte_of_two_nibbles() {
    let a = rgb(0, 0, 0);
    let b = rgb(255, 255, 255);
    let pal = Palette::new_from(vec![a, b]);
    let img = ImageBuf::new(2, 1, vec![a, b]);
    let bytes = image_to_bytes(&img, &pal).unwrap();
    assert_eq!(bytes, vec![0x01]);
}

#[test]
fn packing_pairs_pixels_in_memory_order() {
    let pal = Palette::new_from((0u8..16).map(|v| grey(v * 16)).collect::<Vec<_>>());
    let img = ImageBuf::new(2, 2, vec![grey(16), grey(32), grey(240), grey(0)]);
    let bytes = image_to_bytes(&img, &pal).unwrap();
    assert_eq!(bytes, vec![0x12, 0xf0]);
}

#[test]
fn packing_an_odd_pixel_count_pads_the_last_byte_with_zero() {
    let pal = Palette::new_from(vec![grey(0), grey(100), grey(200)]);
    let img = ImageBuf::new(3, 1, vec![grey(200), grey(100), grey(100)]);
    let bytes = image_to_bytes(&img, &pal).unwrap();
    assert_eq!(bytes, vec![0x21, 0x10]);
}

#[test]
fn packing_with_seventeen_colours_fails_before_any_bytes() {
    let pal = Palette::new_from((0u8..17).map(grey).collect::<Vec<_>>());
    let img = ImageBuf::new(2, 1, vec![grey(0), grey(1)]);
    let r = image_to_bytes(&img, &pal);
    assert!(matches!(r, Err(PaletteError::InvalidParameter)));
}

#[test]
fn packing_with_sixteen_colours_succeeds() {
    let pal = Palette::new_from((0u8..16).map(grey).collect::<Vec<_>>());
    let img = ImageBuf::new(2, 1, vec![grey(15), grey(8)]);
    let bytes = image_to_bytes(&img, &pal).unwrap();
    assert_eq!(bytes, vec![0xf8]);
}
