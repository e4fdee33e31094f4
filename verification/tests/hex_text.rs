use inky::Palette;
use inky::PaletteError;
use inky::Rgb;

fn rgb(r: u8, g: u8, b: u8) -> Rgb {
    Rgb { r, g, b }
}

#[test]
fn parses_one_colour_per_nonblank_line() {
    let pal = Palette::from_hex_text("2f321b\n64471e\n1c3abf\nfdafa0\ndec69c\nb4c9de").unwrap();
    assert_eq!(pal.len(), 6);
    assert_eq!(pal.get_colours()[0], rgb(0x2f, 0x32, 0x1b));
    assert_eq!(pal.get_colours()[5], rgb(0xb4, 0xc9, 0xde));
}

#[test]
fn tolerates_surrounding_whitespace_and_blank_lines() {
    let pal = Palette::from_hex_text("\n  ff0000  \n\n\t00ff00\r\n\n0000ff\n\n").unwrap();
    assert_eq!(
        pal.get_colours(),
        [rgb(255, 0, 0), rgb(0, 255, 0), rgb(0, 0, 255)].as_slice()
    );
}

#[test]
fn accepts_uppercase_hex_digits() {
    let pal = Palette::from_hex_text("A1B2C3").unwrap();
    assert_eq!(pal.get_colours(), [rgb(0xa1, 0xb2, 0xc3)].as_slice());
}

#[test]
fn empty_text_parses_to_an_empty_palette() {
    let pal = Palette::from_hex_text("").unwrap();
    assert_eq!(pal.len(), 0);
}

#[test]
fn rejects_a_line_with_too_few_digits() {
    let r = Palette::from_hex_text("ff0000\nabc\n00ff00");
    assert!(matches!(r, Err(PaletteError::ParseError)));
}

#[test]
fn rejects_a_line_with_too_many_digits() {
    let r = Palette::from_hex_text("ff00001");
    assert!(matches!(r, Err(PaletteError::ParseError)));
}

#[test]
fn rejects_a_non_hex_character() {
    let r = Palette::from_hex_text("ff00gg");
    assert!(matches!(r, Err(PaletteError::ParseError)));
}

#[test]
fn hex_round_trip_preserves_every_channel() {
    let colours = vec![rgb(0, 0, 0), rgb(1, 2, 3), rgb(0xab, 0xcd, 0xef), rgb(255, 255, 255)];
    let pal = Palette::new_from(colours.clone());
    let text = pal.to_hex_text();
    let back = Palette::from_hex_text(&text).unwrap();
    assert_eq!(back.get_colours(), colours.as_slice());
}

#[test]
fn formats_as_lowercase_hex_lines() {
    let pal = Palette::new_from(vec![rgb(0xab, 0x00, 0x1f)]);
    assert_eq!(pal.to_hex_text(), "ab001f\n");
}

#[test]
fn scheme_takes_base_lines_in_document_order() {
    let doc = "scheme: \"Example\"\nauthor: \"Nobody\"\nbase00: \"#1a2b3c\"\n  base01: \"#ffffff\"\nother: \"#000000\"\nbase0F: \"#00ff7f\"\n";
    let pal = Palette::from_tinted_scheme_yaml(doc).unwrap();
    assert_eq!(
        pal.get_colours(),
        [rgb(0x1a, 0x2b, 0x3c), rgb(255, 255, 255), rgb(0, 0xff, 0x7f)].as_slice()
    );
}

#[test]
fn scheme_with_no_base_lines_is_an_error() {
    let r = Palette::from_tinted_scheme_yaml("scheme: \"Example\"\nauthor: \"Nobody\"\n");
    assert!(matches!(r, Err(PaletteError::ParseError)));
}

#[test]
fn scheme_base_line_without_a_colon_is_an_error() {
    let r = Palette::from_tinted_scheme_yaml("base00 \"#1a2b3c\"\n");
    assert!(matches!(r, Err(PaletteError::ParseError)));
}

#[test]
fn scheme_base_line_without_hash_prefix_is_an_error() {
    let r = Palette::from_tinted_scheme_yaml("base00: \"1a2b3c\"\n");
    assert!(matches!(r, Err(PaletteError::ParseError)));
}

#[test]
fn scheme_base_line_without_closing_quote_is_an_error() {
    let r = Palette::from_tinted_scheme_yaml("base00: \"#1a2b3c\n");
    assert!(matches!(r, Err(PaletteError::ParseError)));
}

#[test]
fn scheme_base_line_with_bad_hex_is_an_error() {
    let r = Palette::from_tinted_scheme_yaml("base00: \"#1a2z3c\"\n");
    assert!(matches!(r, Err(PaletteError::ParseError)));
}
