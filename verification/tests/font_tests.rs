use ai_isochrone::font::{
    banner_digit_glyph, banner_glyph_5x7, digit_glyph, font_glyph, glyph_5x7, glyph_pixels, text_pixels, Font,
};

#[test]
fn diagram_font_letters_and_digits() {
    assert_eq!(glyph_5x7('A'), [0x0E, 0x11, 0x11, 0x1F, 0x11, 0x11, 0x11]);
    assert_eq!(glyph_5x7('x'), [0x00, 0x00, 0x11, 0x0A, 0x04, 0x0A, 0x11]);
    assert_eq!(glyph_5x7('7'), digit_glyph('7'));
    assert_eq!(digit_glyph('5'), [0x1F, 0x10, 0x10, 0x1E, 0x01, 0x01, 0x1E]);
    assert_eq!(glyph_5x7(' '), [0; 7]);
    assert_eq!(glyph_5x7('#'), [0x1F; 7]);
    assert_eq!(digit_glyph('a'), [0; 7]);
}

#[test]
fn banner_font_differs_from_diagram_font() {
    assert_eq!(banner_digit_glyph('5'), [0x1F, 0x10, 0x1E, 0x01, 0x01, 0x11, 0x0E]);
    assert_ne!(banner_digit_glyph('5'), digit_glyph('5'));
    assert_eq!(banner_glyph_5x7('|'), [0x04; 7]);
    assert_eq!(banner_glyph_5x7('\u{2192}'), [0x04, 0x02, 0x1F, 0x02, 0x04, 0x00, 0x00]);
    assert_eq!(banner_glyph_5x7('>'), banner_glyph_5x7('\u{2192}'));
    assert_eq!(banner_glyph_5x7('a'), [0x1F; 7]);
    assert_eq!(font_glyph(Font::Banner, '9'), banner_digit_glyph('9'));
    assert_eq!(font_glyph(Font::Diagram, '9'), digit_glyph('9'));
}

#[test]
fn every_glyph_row_fits_five_bits() {
    for ch in "ABCDEGHIKLMNOPRSTUVWYZabdeghiklmnoprstuvwx0123456789.-()/ #".chars() {
        assert!(glyph_5x7(ch).iter().all(|&r| r < 32));
        assert!(banner_glyph_5x7(ch).iter().all(|&r| r < 32));
    }
}

#[test]
fn glyph_pixels_of_one() {
    // '1' = 0x04, 0x0C, 0x04, 0x04, 0x04, 0x04, 0x0E
    let px = glyph_pixels(10, 20, digit_glyph('1'), 100, 100);
    assert_eq!(
        px,
        vec![
            (12, 20),
            (11, 21),
            (12, 21),
            (12, 22),
            (12, 23),
            (12, 24),
            (12, 25),
            (11, 26),
            (12, 26),
            (13, 26)
        ]
    );
}

#[test]
fn glyph_pixels_are_clipped() {
    let px = glyph_pixels(-2, -3, [0x1F; 7], 100, 100);
    assert_eq!(px.len(), 3 * 4);
    assert!(px.iter().all(|&(x, y)| x <= 2 && y <= 3));
}

#[test]
fn text_advances_eight_pixels_per_glyph() {
    let text: Vec<char> = "11".chars().collect();
    let mut px = text_pixels(0, 0, &text, Font::Diagram, 100, 100);
    let mut expected: Vec<(u32, u32)> = glyph_pixels(0, 0, digit_glyph('1'), 100, 100);
    expected.extend(glyph_pixels(8, 0, digit_glyph('1'), 100, 100));
    px.sort();
    expected.sort();
    assert_eq!(px, expected);
    let blank: Vec<char> = "  ".chars().collect();
    assert!(text_pixels(0, 0, &blank, Font::Banner, 100, 100).is_empty());
}
