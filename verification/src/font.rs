use vstd::prelude::*;
use vstd::arithmetic::power2::{lemma2_to64, pow2};
use crate::scan::{
    hits_within, lemma_scan_done, lemma_scan_next_row, lemma_scan_start, lemma_scan_step,
    lists_exactly, on_canvas, scanned_before,
};

verus! {

/// The two 5x7 bitmap fonts: the one of the polar diagram and the one of the
/// route snapshot's title bar.  They differ in their letter sets and in the
/// shapes of the digits 5, 6 and 9.
#[derive(Clone, Copy, Debug)]
pub enum Font {
    Diagram,
    Banner,
}

/// Digit rows of the diagram font (five bits per row, most significant bit left);
/// all rows blank for a character that is not a decimal digit.
pub open spec fn digit_spec(ch: char) -> Seq<u8> {
    match ch {
        '0' => seq![0x0Eu8, 0x11, 0x13, 0x15, 0x19, 0x11, 0x0E],
        '1' => seq![0x04u8, 0x0C, 0x04, 0x04, 0x04, 0x04, 0x0E],
        '2' => seq![0x0Eu8, 0x11, 0x01, 0x06, 0x08, 0x10, 0x1F],
        '3' => seq![0x1Eu8, 0x01, 0x01, 0x0E, 0x01, 0x01, 0x1E],
        '4' => seq![0x02u8, 0x06, 0x0A, 0x12, 0x1F, 0x02, 0x02],
        '5' => seq![0x1Fu8, 0x10, 0x10, 0x1E, 0x01, 0x01, 0x1E],
        '6' => seq![0x0Eu8, 0x10, 0x10, 0x1E, 0x11, 0x11, 0x0E],
        '7' => seq![0x1Fu8, 0x01, 0x02, 0x04, 0x08, 0x08, 0x08],
        '8' => seq![0x0Eu8, 0x11, 0x11, 0x0E, 0x11, 0x11, 0x0E],
        '9' => seq![0x0Eu8, 0x11, 0x11, 0x0F, 0x01, 0x01, 0x0E],
        _ => seq![0u8, 0, 0, 0, 0, 0, 0],
    }
}

/// Glyph rows of the diagram font; unknown characters are drawn as a full block.
pub open spec fn glyph_spec(ch: char) -> Seq<u8> {
    match ch {
        'A' => seq![0x0Eu8, 0x11, 0x11, 0x1F, 0x11, 0x11, 0x11],
        'B' => seq![0x1Eu8, 0x11, 0x11, 0x1E, 0x11, 0x11, 0x1E],
        'C' => seq![0x0Eu8, 0x11, 0x10, 0x10, 0x10, 0x11, 0x0E],
        'D' => seq![0x1Eu8, 0x11, 0x11, 0x11, 0x11, 0x11, 0x1E],
        'E' => seq![0x1Fu8, 0x10, 0x10, 0x1E, 0x10, 0x10, 0x1F],
        'G' => seq![0x0Eu8, 0x11, 0x10, 0x17, 0x11, 0x11, 0x0E],
        'H' => seq![0x11u8, 0x11, 0x11, 0x1F, 0x11, 0x11, 0x11],
        'I' => seq![0x0Eu8, 0x04, 0x04, 0x04, 0x04, 0x04, 0x0E],
        'K' => seq![0x11u8, 0x12, 0x14, 0x18, 0x14, 0x12, 0x11],
        'L' => seq![0x10u8, 0x10, 0x10, 0x10, 0x10, 0x10, 0x1F],
        'M' => seq![0x11u8, 0x1B, 0x15, 0x11, 0x11, 0x11, 0x11],
        'N' => seq![0x11u8, 0x19, 0x15, 0x13, 0x11, 0x11, 0x11],
        'O' => seq![0x0Eu8, 0x11, 0x11, 0x11, 0x11, 0x11, 0x0E],
        'P' => seq![0x1Eu8, 0x11, 0x11, 0x1E, 0x10, 0x10, 0x10],
        'R' => seq![0x1Eu8, 0x11, 0x11, 0x1E, 0x14, 0x12, 0x11],
        'S' => seq![0x0Fu8, 0x10, 0x10, 0x0E, 0x01, 0x01, 0x1E],
        'T' => seq![0x1Fu8, 0x04, 0x04, 0x04, 0x04, 0x04, 0x04],
        'U' => seq![0x11u8, 0x11, 0x11, 0x11, 0x11, 0x11, 0x0E],
        'V' => seq![0x11u8, 0x11, 0x11, 0x11, 0x0A, 0x0A, 0x04],
        'W' => seq![0x11u8, 0x11, 0x11, 0x15, 0x15, 0x15, 0x0A],
        'Y' => seq![0x11u8, 0x11, 0x0A, 0x04, 0x04, 0x04, 0x04],
        'Z' => seq![0x1Fu8, 0x01, 0x02, 0x04, 0x08, 0x10, 0x1F],
        'a' => seq![0x00u8, 0x00, 0x0E, 0x01, 0x0F, 0x11, 0x0F],
        'b' => seq![0x10u8, 0x10, 0x16, 0x19, 0x11, 0x11, 0x1E],
        'd' => seq![0x02u8, 0x02, 0x0E, 0x12, 0x12, 0x12, 0x0E],
        'e' => seq![0x00u8, 0x00, 0x0E, 0x11, 0x1F, 0x10, 0x0E],
        'g' => seq![0x00u8, 0x00, 0x0E, 0x11, 0x0F, 0x01, 0x0E],
        'h' => seq![0x10u8, 0x10, 0x16, 0x19, 0x11, 0x11, 0x11],
        'i' => seq![0x04u8, 0x00, 0x0C, 0x04, 0x04, 0x04, 0x0E],
        'k' => seq![0x10u8, 0x10, 0x12, 0x14, 0x18, 0x14, 0x12],
        'l' => seq![0x0Cu8, 0x04, 0x04, 0x04, 0x04, 0x04, 0x0E],
        'm' => seq![0x00u8, 0x00, 0x1A, 0x15, 0x15, 0x11, 0x11],
        'n' => seq![0x00u8, 0x00, 0x16, 0x19, 0x11, 0x11, 0x11],
        'o' => seq![0x00u8, 0x00, 0x0E, 0x11, 0x11, 0x11, 0x0E],
        'p' => seq![0x00u8, 0x00, 0x1E, 0x11, 0x1E, 0x10, 0x10],
        'r' => seq![0x00u8, 0x00, 0x16, 0x18, 0x10, 0x10, 0x10],
        's' => seq![0x00u8, 0x00, 0x0E, 0x10, 0x0E, 0x01, 0x1E],
        't' => seq![0x04u8, 0x0E, 0x04, 0x04, 0x04, 0x04, 0x06],
        'u' => seq![0x00u8, 0x00, 0x11, 0x11, 0x11, 0x11, 0x0E],
        'v' => seq![0x00u8, 0x00, 0x11, 0x11, 0x11, 0x0A, 0x04],
        'w' => seq![0x00u8, 0x00, 0x11, 0x11, 0x15, 0x15, 0x0A],
        'x' => seq![0x00u8, 0x00, 0x11, 0x0A, 0x04, 0x0A, 0x11],
        '0'..='9' => digit_spec(ch),
        '.' => seq![0x00u8, 0x00, 0x00, 0x00, 0x00, 0x0C, 0x0C],
        '-' => seq![0x00u8, 0x00, 0x00, 0x1F, 0x00, 0x00, 0x00],
        '(' => seq![0x02u8, 0x04, 0x08, 0x08, 0x08, 0x04, 0x02],
        ')' => seq![0x08u8, 0x04, 0x02, 0x02, 0x02, 0x04, 0x08],
        '/' => seq![0x01u8, 0x01, 0x02, 0x04, 0x08, 0x10, 0x10],
        ' ' => seq![0u8, 0, 0, 0, 0, 0, 0],
        _ => seq![0x1Fu8, 0x1F, 0x1F, 0x1F, 0x1F, 0x1F, 0x1F],
    }
}

/// Digit rows of the banner font.
pub open spec fn banner_digit_spec(ch: char) -> Seq<u8> {
    match ch {
        '0' => seq![0x0Eu8, 0x11, 0x13, 0x15, 0x19, 0x11, 0x0E],
        '1' => seq![0x04u8, 0x0C, 0x04, 0x04, 0x04, 0x04, 0x0E],
        '2' => seq![0x0Eu8, 0x11, 0x01, 0x06, 0x08, 0x10, 0x1F],
        '3' => seq![0x1Eu8, 0x01, 0x01, 0x0E, 0x01, 0x01, 0x1E],
        '4' => seq![0x02u8, 0x06, 0x0A, 0x12, 0x1F, 0x02, 0x02],
        '5' => seq![0x1Fu8, 0x10, 0x1E, 0x01, 0x01, 0x11, 0x0E],
        '6' => seq![0x06u8, 0x08, 0x10, 0x1E, 0x11, 0x11, 0x0E],
        '7' => seq![0x1Fu8, 0x01, 0x02, 0x04, 0x08, 0x08, 0x08],
        '8' => seq![0x0Eu8, 0x11, 0x11, 0x0E, 0x11, 0x11, 0x0E],
        '9' => seq![0x0Eu8, 0x11, 0x11, 0x0F, 0x01, 0x02, 0x0C],
        _ => seq![0u8, 0, 0, 0, 0, 0, 0],
    }
}

/// Glyph rows of the banner font (upper-case letters, digits, '.', ' ', arrows, '|').
pub open spec fn banner_glyph_spec(ch: char) -> Seq<u8> {
    match ch {
        'A' => seq![0x0Eu8, 0x11, 0x11, 0x1F, 0x11, 0x11, 0x11],
        'B' => seq![0x1Eu8, 0x11, 0x11, 0x1E, 0x11, 0x11, 0x1E],
        'C' => seq![0x0Eu8, 0x11, 0x10, 0x10, 0x10, 0x11, 0x0E],
        'D' => seq![0x1Eu8, 0x11, 0x11, 0x11, 0x11, 0x11, 0x1E],
        'E' => seq![0x1Fu8, 0x10, 0x10, 0x1E, 0x10, 0x10, 0x1F],
        'G' => seq![0x0Eu8, 0x11, 0x10, 0x17, 0x11, 0x11, 0x0E],
        'H' => seq![0x11u8, 0x11, 0x11, 0x1F, 0x11, 0x11, 0x11],
        'I' => seq![0x0Eu8, 0x04, 0x04, 0x04, 0x04, 0x04, 0x0E],
        'L' => seq![0x10u8, 0x10, 0x10, 0x10, 0x10, 0x10, 0x1F],
        'M' => seq![0x11u8, 0x1B, 0x15, 0x11, 0x11, 0x11, 0x11],
        'N' => seq![0x11u8, 0x19, 0x15, 0x13, 0x11, 0x11, 0x11],
        'O' => seq![0x0Eu8, 0x11, 0x11, 0x11, 0x11, 0x11, 0x0E],
        'R' => seq![0x1Eu8, 0x11, 0x11, 0x1E, 0x14, 0x12, 0x11],
        'S' => seq![0x0Fu8, 0x10, 0x10, 0x0E, 0x01, 0x01, 0x1E],
        'T' => seq![0x1Fu8, 0x04, 0x04, 0x04, 0x04, 0x04, 0x04],
        'U' => seq![0x11u8, 0x11, 0x11, 0x11, 0x11, 0x11, 0x0E],
        'V' => seq![0x11u8, 0x11, 0x11, 0x11, 0x0A, 0x0A, 0x04],
        'Y' => seq![0x11u8, 0x11, 0x0A, 0x04, 0x04, 0x04, 0x04],
        '0'..='9' => banner_digit_spec(ch),
        '.' => seq![0x00u8, 0x00, 0x00, 0x00, 0x00, 0x0C, 0x0C],
        ' ' => seq![0u8, 0, 0, 0, 0, 0, 0],
        '\u{2192}' | '>' => seq![0x04u8, 0x02, 0x1F, 0x02, 0x04, 0x00, 0x00],
        '|' => seq![0x04u8, 0x04, 0x04, 0x04, 0x04, 0x04, 0x04],
        _ => seq![0x1Fu8, 0x1F, 0x1F, 0x1F, 0x1F, 0x1F, 0x1F],
    }
}

/// Rows of `ch` in the given font.
pub open spec fn font_glyph_spec(font: Font, ch: char) -> Seq<u8> {
    match font {
        Font::Diagram => glyph_spec(ch),
        Font::Banner => banner_glyph_spec(ch),
    }
}

/// Every row of a glyph fits in five bits.
pub open spec fn rows_fit(rows: Seq<u8>) -> bool {
    &&& rows.len() == 7
    &&& forall|r: int| 0 <= r < 7 ==> #[trigger] rows[r] < 32
}

/// Digit glyphs of the diagram font.
pub fn digit_glyph(ch: char) -> (g: [u8; 7])
    ensures
        g@ == digit_spec(ch),
{
    let g = match ch {
        '0' => [0x0E, 0x11, 0x13, 0x15, 0x19, 0x11, 0x0E],
        '1' => [0x04, 0x0C, 0x04, 0x04, 0x04, 0x04, 0x0E],
        '2' => [0x0E, 0x11, 0x01, 0x06, 0x08, 0x10, 0x1F],
        '3' => [0x1E, 0x01, 0x01, 0x0E, 0x01, 0x01, 0x1E],
        '4' => [0x02, 0x06, 0x0A, 0x12, 0x1F, 0x02, 0x02],
        '5' => [0x1F, 0x10, 0x10, 0x1E, 0x01, 0x01, 0x1E],
        '6' => [0x0E, 0x10, 0x10, 0x1E, 0x11, 0x11, 0x0E],
        '7' => [0x1F, 0x01, 0x02, 0x04, 0x08, 0x08, 0x08],
        '8' => [0x0E, 0x11, 0x11, 0x0E, 0x11, 0x11, 0x0E],
        '9' => [0x0E, 0x11, 0x11, 0x0F, 0x01, 0x01, 0x0E],
        _ => [0x00; 7],
    };
    assert(g@ =~= digit_spec(ch));
    g
}

/// Glyph of `ch` in the diagram font.
pub fn glyph_5x7(ch: char) -> (g: [u8; 7])
    ensures
        g@ == glyph_spec(ch),
{
    let g = match ch {
            'A' => [0x0E, 0x11, 0x11, 0x1F, 0x11, 0x11, 0x11],
            'B' => [0x1E, 0x11, 0x11, 0x1E, 0x11, 0x11, 0x1E],
            'C' => [0x0E, 0x11, 0x10, 0x10, 0x10, 0x11, 0x0E],
            'D' => [0x1E, 0x11, 0x11, 0x11, 0x11, 0x11, 0x1E],
            'E' => [0x1F, 0x10, 0x10, 0x1E, 0x10, 0x10, 0x1F],
            'G' => [0x0E, 0x11, 0x10, 0x17, 0x11, 0x11, 0x0E],
            'H' => [0x11, 0x11, 0x11, 0x1F, 0x11, 0x11, 0x11],
            'I' => [0x0E, 0x04, 0x04, 0x04, 0x04, 0x04, 0x0E],
            'K' => [0x11, 0x12, 0x14, 0x18, 0x14, 0x12, 0x11],
            'L' => [0x10, 0x10, 0x10, 0x10, 0x10, 0x10, 0x1F],
            'M' => [0x11, 0x1B, 0x15, 0x11, 0x11, 0x11, 0x11],
            'N' => [0x11, 0x19, 0x15, 0x13, 0x11, 0x11, 0x11],
            'O' => [0x0E, 0x11, 0x11, 0x11, 0x11, 0x11, 0x0E],
            'P' => [0x1E, 0x11, 0x11, 0x1E, 0x10, 0x10, 0x10],
            'R' => [0x1E, 0x11, 0x11, 0x1E, 0x14, 0x12, 0x11],
            'S' => [0x0F, 0x10, 0x10, 0x0E, 0x01, 0x01, 0x1E],
            'T' => [0x1F, 0x04, 0x04, 0x04, 0x04, 0x04, 0x04],
            'U' => [0x11, 0x11, 0x11, 0x11, 0x11, 0x11, 0x0E],
            'V' => [0x11, 0x11, 0x11, 0x11, 0x0A, 0x0A, 0x04],
            'W' => [0x11, 0x11, 0x11, 0x15, 0x15, 0x15, 0x0A],
            'Y' => [0x11, 0x11, 0x0A, 0x04, 0x04, 0x04, 0x04],
            'Z' => [0x1F, 0x01, 0x02, 0x04, 0x08, 0x10, 0x1F],
            'a' => [0x00, 0x00, 0x0E, 0x01, 0x0F, 0x11, 0x0F],
            'b' => [0x10, 0x10, 0x16, 0x19, 0x11, 0x11, 0x1E],
            'd' => [0x02, 0x02, 0x0E, 0x12, 0x12, 0x12, 0x0E],
            'e' => [0x00, 0x00, 0x0E, 0x11, 0x1F, 0x10, 0x0E],
            'g' => [0x00, 0x00, 0x0E, 0x11, 0x0F, 0x01, 0x0E],
            'h' => [0x10, 0x10, 0x16, 0x19, 0x11, 0x11, 0x11],
            'i' => [0x04, 0x00, 0x0C, 0x04, 0x04, 0x04, 0x0E],
            'k' => [0x10, 0x10, 0x12, 0x14, 0x18, 0x14, 0x12],
            'l' => [0x0C, 0x04, 0x04, 0x04, 0x04, 0x04, 0x0E],
            'm' => [0x00, 0x00, 0x1A, 0x15, 0x15, 0x11, 0x11],
            'n' => [0x00, 0x00, 0x16, 0x19, 0x11, 0x11, 0x11],
            'o' => [0x00, 0x00, 0x0E, 0x11, 0x11, 0x11, 0x0E],
            'p' => [0x00, 0x00, 0x1E, 0x11, 0x1E, 0x10, 0x10],
            'r' => [0x00, 0x00, 0x16, 0x18, 0x10, 0x10, 0x10],
            's' => [0x00, 0x00, 0x0E, 0x10, 0x0E, 0x01, 0x1E],
            't' => [0x04, 0x0E, 0x04, 0x04, 0x04, 0x04, 0x06],
            'u' => [0x00, 0x00, 0x11, 0x11, 0x11, 0x11, 0x0E],
            'v' => [0x00, 0x00, 0x11, 0x11, 0x11, 0x0A, 0x04],
            'w' => [0x00, 0x00, 0x11, 0x11, 0x15, 0x15, 0x0A],
            'x' => [0x00, 0x00, 0x11, 0x0A, 0x04, 0x0A, 0x11],
            '0'..='9' => digit_glyph(ch),
            '.' => [0x00, 0x00, 0x00, 0x00, 0x00, 0x0C, 0x0C],
            '-' => [0x00, 0x00, 0x00, 0x1F, 0x00, 0x00, 0x00],
            '(' => [0x02, 0x04, 0x08, 0x08, 0x08, 0x04, 0x02],
            ')' => [0x08, 0x04, 0x02, 0x02, 0x02, 0x04, 0x08],
            '/' => [0x01, 0x01, 0x02, 0x04, 0x08, 0x10, 0x10],
            ' ' => [0, 0, 0, 0, 0, 0, 0],
            _ => [0x1F, 0x1F, 0x1F, 0x1F, 0x1F, 0x1F, 0x1F],
    };
    assert(g@ =~= glyph_spec(ch));
    g
}

/// Digit glyphs of the banner font.
pub fn banner_digit_glyph(ch: char) -> (g: [u8; 7])
    ensures
        g@ == banner_digit_spec(ch),
{
    let g = match ch {
            '0' => [0x0E, 0x11, 0x13, 0x15, 0x19, 0x11, 0x0E],
            '1' => [0x04, 0x0C, 0x04, 0x04, 0x04, 0x04, 0x0E],
            '2' => [0x0E, 0x11, 0x01, 0x06, 0x08, 0x10, 0x1F],
            '3' => [0x1E, 0x01, 0x01, 0x0E, 0x01, 0x01, 0x1E],
            '4' => [0x02, 0x06, 0x0A, 0x12, 0x1F, 0x02, 0x02],
            '5' => [0x1F, 0x10, 0x1E, 0x01, 0x01, 0x11, 0x0E],
            '6' => [0x06, 0x08, 0x10, 0x1E, 0x11, 0x11, 0x0E],
            '7' => [0x1F, 0x01, 0x02, 0x04, 0x08, 0x08, 0x08],
            '8' => [0x0E, 0x11, 0x11, 0x0E, 0x11, 0x11, 0x0E],
            '9' => [0x0E, 0x11, 0x11, 0x0F, 0x01, 0x02, 0x0C],
            _ => [0, 0, 0, 0, 0, 0, 0],
    };
    assert(g@ =~= banner_digit_spec(ch));
    g
}

/// Glyph of `ch` in the banner font.
pub fn banner_glyph_5x7(ch: char) -> (g: [u8; 7])
    ensures
        g@ == banner_glyph_spec(ch),
{
    let g = match ch {
            'A' => [0x0E, 0x11, 0x11, 0x1F, 0x11, 0x11, 0x11],
            'B' => [0x1E, 0x11, 0x11, 0x1E, 0x11, 0x11, 0x1E],
            'C' => [0x0E, 0x11, 0x10, 0x10, 0x10, 0x11, 0x0E],
            'D' => [0x1E, 0x11, 0x11, 0x11, 0x11, 0x11, 0x1E],
            'E' => [0x1F, 0x10, 0x10, 0x1E, 0x10, 0x10, 0x1F],
            'G' => [0x0E, 0x11, 0x10, 0x17, 0x11, 0x11, 0x0E],
            'H' => [0x11, 0x11, 0x11, 0x1F, 0x11, 0x11, 0x11],
            'I' => [0x0E, 0x04, 0x04, 0x04, 0x04, 0x04, 0x0E],
            'L' => [0x10, 0x10, 0x10, 0x10, 0x10, 0x10, 0x1F],
            'M' => [0x11, 0x1B, 0x15, 0x11, 0x11, 0x11, 0x11],
            'N' => [0x11, 0x19, 0x15, 0x13, 0x11, 0x11, 0x11],
            'O' => [0x0E, 0x11, 0x11, 0x11, 0x11, 0x11, 0x0E],
            'R' => [0x1E, 0x11, 0x11, 0x1E, 0x14, 0x12, 0x11],
            'S' => [0x0F, 0x10, 0x10, 0x0E, 0x01, 0x01, 0x1E],
            'T' => [0x1F, 0x04, 0x04, 0x04, 0x04, 0x04, 0x04],
            'U' => [0x11, 0x11, 0x11, 0x11, 0x11, 0x11, 0x0E],
            'V' => [0x11, 0x11, 0x11, 0x11, 0x0A, 0x0A, 0x04],
            'Y' => [0x11, 0x11, 0x0A, 0x04, 0x04, 0x04, 0x04],
            '0'..='9' => banner_digit_glyph(ch),
            '.' => [0x00, 0x00, 0x00, 0x00, 0x00, 0x0C, 0x0C],
            ' ' => [0, 0, 0, 0, 0, 0, 0],
            '\u{2192}' | '>' => [0x04, 0x02, 0x1F, 0x02, 0x04, 0x00, 0x00],
            '|' => [0x04, 0x04, 0x04, 0x04, 0x04, 0x04, 0x04],
            _ => [0x1F, 0x1F, 0x1F, 0x1F, 0x1F, 0x1F, 0x1F],
    };
    assert(g@ =~= banner_glyph_spec(ch));
    g
}

/// Glyph of `ch` in `font`.
pub fn font_glyph(font: Font, ch: char) -> (g: [u8; 7])
    ensures
        g@ == font_glyph_spec(font, ch),
{
    match font {
        Font::Diagram => glyph_5x7(ch),
        Font::Banner => banner_glyph_5x7(ch),
    }
}

/// Every glyph of both fonts is seven rows of five bits.
pub proof fn lemma_glyph_rows_fit(font: Font, ch: char)
    ensures
        rows_fit(font_glyph_spec(font, ch)),
{
}

/// Digits are drawn with the digit table of their font, and that table is
/// blank for any other character.
pub proof fn lemma_digits_use_digit_table(ch: char)
    ensures
        '0' <= ch <= '9' ==> glyph_spec(ch) == digit_spec(ch),
        '0' <= ch <= '9' ==> banner_glyph_spec(ch) == banner_digit_spec(ch),
        !('0' <= ch <= '9') ==> digit_spec(ch) == seq![0u8, 0, 0, 0, 0, 0, 0],
        !('0' <= ch <= '9') ==> banner_digit_spec(ch) == seq![0u8, 0, 0, 0, 0, 0, 0],
{
}

/// The ten digits of each font are told apart: no two digits share a glyph, so a number
/// is never drawn as another.
pub proof fn lemma_digit_glyphs_distinct(font: Font, c1: char, c2: char)
    requires
        '0' <= c1 <= '9',
        '0' <= c2 <= '9',
        c1 != c2,
    ensures
        digit_spec(c1) != digit_spec(c2),
        banner_digit_spec(c1) != banner_digit_spec(c2),
        font_glyph_spec(font, c1) != font_glyph_spec(font, c2),
{
    let (d1, d2, b1, b2) = (digit_spec(c1), digit_spec(c2), banner_digit_spec(c1), banner_digit_spec(c2));
    assert(d1[0] != d2[0] || d1[3] != d2[3]);
    assert(b1[0] != b2[0] || b1[3] != b2[3]);
    lemma_digits_use_digit_table(c1);
    lemma_digits_use_digit_table(c2);
}

} // verus!

verus! {

/// Column `col` (0 = leftmost of five) of a glyph row is set.
pub open spec fn bit_on(row: u8, col: u8) -> bool {
    (row >> ((4 - col) as u8)) & 1u8 == 1u8
}

/// The pixels painted by a glyph with rows `rows` whose top-left corner is `(x, y)`:
/// canvas pixels at column `c < 5`, row `r < 7` of the glyph where bit `c` of row `r` is set.
pub open spec fn glyph_hit(x: int, y: int, rows: Seq<u8>, width: int, height: int) -> spec_fn(
    int,
    int,
) -> bool {
    |px: int, py: int|
        on_canvas(px, py, width, height) && 0 <= px - x < 5 && 0 <= py - y < 7 && bit_on(
            rows[py - y],
            (px - x) as u8,
        )
}

/// Pixels of one glyph drawn with its top-left corner at `(x, y)`, in row-major order.
pub fn glyph_pixels(x: i32, y: i32, glyph: [u8; 7], width: u32, height: u32) -> (px: Vec<(u32, u32)>)
    requires
        x <= i32::MAX - 4,
        y <= i32::MAX - 6,
    ensures
        lists_exactly(px@, glyph_hit(x as int, y as int, glyph@, width as int, height as int)),
{
    let ghost hit = glyph_hit(x as int, y as int, glyph@, width as int, height as int);
    let mut out: Vec<(u32, u32)> = Vec::new();
    proof {
        lemma_scan_start(hit, x as int, x + 4, y as int, y + 6);
    }
    let mut row: usize = 0;
    while row < 7
        invariant
            x <= i32::MAX - 4,
            y <= i32::MAX - 6,
            row <= 7,
            hit == glyph_hit(x as int, y as int, glyph@, width as int, height as int),
            hits_within(hit, x as int, x + 4, y as int, y + 6),
            scanned_before(out@, hit, x as int, y + row),
        decreases 7 - row,
    {
        let bits = glyph[row];
        let mut col: u8 = 0;
        while col < 5
            invariant
                x <= i32::MAX - 4,
                y <= i32::MAX - 6,
                row < 7,
                col <= 5,
                bits == glyph@[row as int],
                hit == glyph_hit(x as int, y as int, glyph@, width as int, height as int),
                scanned_before(out@, hit, x + col, y + row),
            decreases 5 - col,
        {
            proof {
                lemma_scan_step(out@, hit, x + col, y + row);
            }
            let shift: u8 = 4 - col;
            if (bits >> shift) & 1 == 1 {
                let px = x + col as i32;
                let py = y + row as i32;
                if px >= 0 && py >= 0 && (px as u32) < width && (py as u32) < height {
                    out.push((px as u32, py as u32));
                } else {
                    assert(!hit(x + col, y + row));
                }
            } else {
                assert(!hit(x + col, y + row));
            }
            col = col + 1;
        }
        proof {
            lemma_scan_next_row(out@, hit, x + col, x as int, x + 4, y + row, y as int, y + 6);
        }
        row = row + 1;
    }
    proof {
        lemma_scan_done(out@, hit, x as int, y + row, x as int, x + 4, y as int, y + 6);
    }
    out
}

/// The pixels painted by drawing `text` in `font` from `(x, y)`, one glyph every
/// eight pixels to the right.
pub open spec fn text_hit(x: int, y: int, text: Seq<char>, font: Font, width: int, height: int) -> spec_fn(
    int,
    int,
) -> bool {
    |px: int, py: int|
        exists|k: int|
            0 <= k < text.len() && #[trigger] glyph_hit(
                x + 8 * k,
                y,
                font_glyph_spec(font, text[k]),
                width,
                height,
            )(px, py)
}

/// Pixels painted by drawing `text` in `font` with its first glyph's top-left corner
/// at `(x, y)` (glyph by glyph, each in row-major order).
pub fn text_pixels(x: i32, y: i32, text: &[char], font: Font, width: u32, height: u32) -> (px: Vec<
    (u32, u32),
>)
    requires
        x + 8 * text@.len() <= i32::MAX,
        y <= i32::MAX - 6,
    ensures
        forall|k: int|
            0 <= k < px@.len() ==> #[trigger] text_hit(x as int, y as int, text@, font, width as int, height as int)(
                px@[k].0 as int,
                px@[k].1 as int,
            ),
        forall|qx: int, qy: int|
            #[trigger] text_hit(x as int, y as int, text@, font, width as int, height as int)(qx, qy)
                ==> px@.contains((qx as u32, qy as u32)),
{
    let ghost hit = text_hit(x as int, y as int, text@, font, width as int, height as int);
    let mut out: Vec<(u32, u32)> = Vec::new();
    let mut cx = x;
    let mut i: usize = 0;
    while i < text.len()
        invariant
            x + 8 * text@.len() <= i32::MAX,
            y <= i32::MAX - 6,
            i <= text@.len(),
            cx == x + 8 * i,
            hit == text_hit(x as int, y as int, text@, font, width as int, height as int),
            forall|k: int| 0 <= k < out@.len() ==> #[trigger] hit(out@[k].0 as int, out@[k].1 as int),
            forall|k: int, qx: int, qy: int|
                0 <= k < i && #[trigger] glyph_hit(
                    x + 8 * k,
                    y as int,
                    font_glyph_spec(font, text@[k]),
                    width as int,
                    height as int,
                )(qx, qy) ==> out@.contains((qx as u32, qy as u32)),
        decreases text@.len() - i,
    {
        let g = font_glyph(font, text[i]);
        let part = glyph_pixels(cx, y, g, width, height);
        let ghost prev = out@;
        let ghost gh = glyph_hit(cx as int, y as int, g@, width as int, height as int);
        let mut j: usize = 0;
        while j < part.len()
            invariant
                0 <= j <= part@.len(),
                i < text@.len(),
                cx == x + 8 * i,
                gh == glyph_hit(cx as int, y as int, g@, width as int, height as int),
                g@ == font_glyph_spec(font, text@[i as int]),
                lists_exactly(part@, gh),
                hit == text_hit(x as int, y as int, text@, font, width as int, height as int),
                out@.len() == prev.len() + j,
                forall|k: int| 0 <= k < prev.len() ==> out@[k] == prev[k],
                forall|k: int| 0 <= k < j ==> out@[prev.len() + k] == part@[k],
                forall|k: int| 0 <= k < prev.len() ==> #[trigger] hit(prev[k].0 as int, prev[k].1 as int),
            decreases part@.len() - j,
        {
            out.push(part[j]);
            j = j + 1;
        }
        assert forall|k: int| 0 <= k < out@.len() implies #[trigger] hit(out@[k].0 as int, out@[k].1 as int) by {
            if k < prev.len() {
                assert(out@[k] == prev[k]);
            } else {
                let m = k - prev.len();
                assert(out@[k] == part@[m]);
                assert(gh(part@[m].0 as int, part@[m].1 as int));
                assert(glyph_hit(
                    x + 8 * (i as int),
                    y as int,
                    font_glyph_spec(font, text@[i as int]),
                    width as int,
                    height as int,
                )(out@[k].0 as int, out@[k].1 as int));
            }
        }
        assert forall|k: int, qx: int, qy: int|
            0 <= k < i + 1 && #[trigger] glyph_hit(
                x + 8 * k,
                y as int,
                font_glyph_spec(font, text@[k]),
                width as int,
                height as int,
            )(qx, qy) implies out@.contains((qx as u32, qy as u32)) by {
            if k < i {
                assert(prev.contains((qx as u32, qy as u32)));
                let m = choose|m: int| 0 <= m < prev.len() && prev[m] == (qx as u32, qy as u32);
                assert(out@[m] == prev[m]);
            } else {
                assert(gh(qx, qy));
                assert(part@.contains((qx as u32, qy as u32)));
                let m = choose|m: int| 0 <= m < part@.len() && part@[m] == (qx as u32, qy as u32);
                assert(out@[prev.len() + m] == part@[m]);
            }
        }
        cx = cx + 8;
        i = i + 1;
    }
    out
}

/// Column `c` of a row is its bit of weight `2^(4 - c)`: the leftmost column is the most
/// significant of the five bits.
proof fn lemma_bit_on_weight(row: u8, c: int)
    requires
        0 <= c < 5,
    ensures
        bit_on(row, c as u8) <==> (row as int / pow2((4 - c) as nat) as int) % 2 == 1,
{
    lemma2_to64();
    if c == 0 {
        assert(((row >> 4u8) & 1u8 == 1u8) <==> (row / 16u8) % 2u8 == 1u8) by (bit_vector);
    } else if c == 1 {
        assert(((row >> 3u8) & 1u8 == 1u8) <==> (row / 8u8) % 2u8 == 1u8) by (bit_vector);
    } else if c == 2 {
        assert(((row >> 2u8) & 1u8 == 1u8) <==> (row / 4u8) % 2u8 == 1u8) by (bit_vector);
    } else if c == 3 {
        assert(((row >> 1u8) & 1u8 == 1u8) <==> (row / 2u8) % 2u8 == 1u8) by (bit_vector);
    } else {
        assert(((row >> 0u8) & 1u8 == 1u8) <==> (row / 1u8) % 2u8 == 1u8) by (bit_vector);
    }
}

/// A glyph is drawn as its bitmap: inside the 5 x 7 box at `(x, y)`, the canvas pixel in
/// column `c` and row `r` is painted exactly when row `r` has its bit of weight
/// `2^(4 - c)` set (leftmost column = most significant bit); nothing outside the box is.
pub proof fn lemma_glyph_drawn_as_bitmap(
    px: Seq<(u32, u32)>,
    x: int,
    y: int,
    rows: Seq<u8>,
    width: int,
    height: int,
)
    requires
        0 <= width <= u32::MAX,
        0 <= height <= u32::MAX,
        lists_exactly(px, glyph_hit(x, y, rows, width, height)),
    ensures
        forall|c: int, r: int|
            #![trigger on_canvas(x + c, y + r, width, height)]
            0 <= c < 5 && 0 <= r < 7 && on_canvas(x + c, y + r, width, height) ==> (px.contains(
                ((x + c) as u32, (y + r) as u32),
            ) <==> (rows[r] as int / pow2((4 - c) as nat) as int) % 2 == 1),
        forall|k: int|
            0 <= k < px.len() ==> 0 <= (#[trigger] px[k]).0 - x < 5 && 0 <= px[k].1 - y < 7,
{
    let hit = glyph_hit(x, y, rows, width, height);
    assert forall|c: int, r: int|
        #![trigger on_canvas(x + c, y + r, width, height)]
        0 <= c < 5 && 0 <= r < 7 && on_canvas(x + c, y + r, width, height) implies (px.contains(
        ((x + c) as u32, (y + r) as u32),
    ) <==> (rows[r] as int / pow2((4 - c) as nat) as int) % 2 == 1) by {
        lemma_bit_on_weight(rows[r], c);
        assert((x + c) - x == c && (y + r) - y == r);
        if (rows[r] as int / pow2((4 - c) as nat) as int) % 2 == 1 {
            assert(hit(x + c, y + r));
        }
        if px.contains(((x + c) as u32, (y + r) as u32)) {
            let k = choose|k: int| 0 <= k < px.len() && px[k] == ((x + c) as u32, (y + r) as u32);
            assert(hit(px[k].0 as int, px[k].1 as int));
            assert(px[k].0 as int == x + c && px[k].1 as int == y + r);
        }
    }
    assert forall|k: int| 0 <= k < px.len() implies 0 <= (#[trigger] px[k]).0 - x < 5 && 0 <= px[k].1
        - y < 7 by {
        assert(hit(px[k].0 as int, px[k].1 as int));
    }
}

/// Pixel `q` lies in the 5 x 7 box of some character of `text` drawn from `(x, y)`, one
/// character every eight pixels.
pub open spec fn in_some_glyph_box(q: (u32, u32), x: int, y: int, text: Seq<char>) -> bool {
    exists|k: int|
        #![trigger text[k]]
        0 <= k < text.len() && 0 <= q.0 - x - 8 * k < 5 && 0 <= q.1 - y < 7
}

/// Text is drawn glyph by glyph, one every eight pixels: inside the 5 x 7 box of the
/// `k`-th character, at `(x + 8 k, y)`, a canvas pixel is painted exactly when the glyph
/// of that character has the matching bit set, and every painted pixel lies in the box
/// of some character.
pub proof fn lemma_text_glyph_placement(
    px: Seq<(u32, u32)>,
    x: int,
    y: int,
    text: Seq<char>,
    font: Font,
    width: int,
    height: int,
)
    requires
        0 <= width <= u32::MAX,
        0 <= height <= u32::MAX,
        forall|k: int|
            0 <= k < px.len() ==> #[trigger] text_hit(x, y, text, font, width, height)(
                px[k].0 as int,
                px[k].1 as int,
            ),
        forall|qx: int, qy: int|
            #[trigger] text_hit(x, y, text, font, width, height)(qx, qy) ==> px.contains(
                (qx as u32, qy as u32),
            ),
    ensures
        forall|k: int, c: int, r: int|
            #![trigger text[k], on_canvas(x + 8 * k + c, y + r, width, height)]
            0 <= k < text.len() && 0 <= c < 5 && 0 <= r < 7 && on_canvas(
                x + 8 * k + c,
                y + r,
                width,
                height,
            ) ==> (px.contains(((x + 8 * k + c) as u32, (y + r) as u32)) <==> (font_glyph_spec(
                font,
                text[k],
            )[r] as int / pow2((4 - c) as nat) as int) % 2 == 1),
        forall|m: int|
            0 <= m < px.len() ==> #[trigger] in_some_glyph_box(px[m], x, y, text),
{
    let hit = text_hit(x, y, text, font, width, height);
    assert forall|k: int, c: int, r: int|
        #![trigger text[k], on_canvas(x + 8 * k + c, y + r, width, height)]
        0 <= k < text.len() && 0 <= c < 5 && 0 <= r < 7 && on_canvas(
            x + 8 * k + c,
            y + r,
            width,
            height,
        ) implies (px.contains(((x + 8 * k + c) as u32, (y + r) as u32)) <==> (font_glyph_spec(
        font,
        text[k],
    )[r] as int / pow2((4 - c) as nat) as int) % 2 == 1) by {
        let rows = font_glyph_spec(font, text[k]);
        let (qx, qy) = (x + 8 * k + c, y + r);
        lemma_bit_on_weight(rows[r], c);
        assert(qx - (x + 8 * k) == c && qy - y == r);
        if (rows[r] as int / pow2((4 - c) as nat) as int) % 2 == 1 {
            assert(glyph_hit(x + 8 * k, y, rows, width, height)(qx, qy));
            assert(hit(qx, qy));
        }
        if px.contains((qx as u32, qy as u32)) {
            let m = choose|m: int| 0 <= m < px.len() && px[m] == (qx as u32, qy as u32);
            assert(hit(px[m].0 as int, px[m].1 as int));
            assert(px[m].0 as int == qx && px[m].1 as int == qy);
            let j = choose|j: int|
                0 <= j < text.len() && #[trigger] glyph_hit(
                    x + 8 * j,
                    y,
                    font_glyph_spec(font, text[j]),
                    width,
                    height,
                )(qx, qy);
            assert(j == k);
        }
    }
    assert forall|m: int| 0 <= m < px.len() implies #[trigger] in_some_glyph_box(px[m], x, y, text) by {
        let (qx, qy) = (px[m].0 as int, px[m].1 as int);
        assert(hit(qx, qy));
        let j = choose|j: int|
            0 <= j < text.len() && #[trigger] glyph_hit(
                x + 8 * j,
                y,
                font_glyph_spec(font, text[j]),
                width,
                height,
            )(qx, qy);
        assert(0 <= px[m].0 - x - 8 * j < 5 && 0 <= px[m].1 - y < 7);
    }
}

} // verus!
