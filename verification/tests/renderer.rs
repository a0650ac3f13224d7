use embedded_graphics_profont::renderer::{
    can_draw_char, can_lay_out, char_pixels, glyph_pixels, next_cursor, str_layout,
};
use embedded_graphics_profont::{Font, GlyphEntry, Point};

const GLYPHS: [GlyphEntry; 3] = [
    GlyphEntry { width: 3, offset: 0 },
    GlyphEntry { width: 9, offset: 2 },
    GlyphEntry { width: 0, offset: 6 },
];

// Rows are stored bottom-up: for 'A' the first byte (#.#) is the bottom row
// and the second (.#.) the top row.
const DATA: [u8; 6] = [0b1010_0000, 0b0100_0000, 0xFF, 0x80, 0x01, 0x00];

fn font() -> Font {
    Font::new(&GLYPHS, &DATA, 'A' as u32, 'C' as u32, 2, true)
}

fn p(x: i32, y: i32) -> Point {
    Point::new(x, y)
}

#[test]
fn glyph_pixels_flip_rows_and_read_msb_first() {
    let f = font();
    let px = glyph_pixels(&f, &GLYPHS[0], p(0, 0));
    assert_eq!(px, vec![p(1, 0), p(0, 1), p(2, 1)]);
}

#[test]
fn glyph_pixels_offset_by_position() {
    let f = font();
    let px = glyph_pixels(&f, &GLYPHS[0], p(10, -4));
    assert_eq!(px, vec![p(11, -4), p(10, -3), p(12, -3)]);
}

#[test]
fn glyph_pixels_wide_glyph_spans_two_bytes() {
    let f = font();
    // drawn row 0 comes from bytes [0x01, 0x00]: column 7 only
    // drawn row 1 comes from bytes [0xFF, 0x80]: columns 0..=8
    let px = glyph_pixels(&f, &GLYPHS[1], p(0, 0));
    let mut expected = vec![p(7, 0)];
    for c in 0..9 {
        expected.push(p(c, 1));
    }
    assert_eq!(px, expected);
}

#[test]
fn glyph_pixels_empty_glyph() {
    let f = font();
    assert_eq!(glyph_pixels(&f, &GLYPHS[2], p(0, 0)), vec![]);
}

#[test]
fn char_pixels_returns_width() {
    let f = font();
    let (px, w) = char_pixels(&f, 'A', p(0, 0)).unwrap();
    assert_eq!(w, 3);
    assert_eq!(px.len(), 3);
    let (px, w) = char_pixels(&f, 'C', p(0, 0)).unwrap();
    assert_eq!(w, 0);
    assert!(px.is_empty());
    assert!(char_pixels(&f, 'z', p(0, 0)).is_none());
}

#[test]
fn can_draw_char_checks_data_and_coordinates() {
    let f = font();
    assert!(can_draw_char(&f, 'A', p(0, 0)));
    assert!(can_draw_char(&f, 'z', p(i32::MAX, i32::MAX)));
    // column 1 is set in the top row of 'A'
    assert!(!can_draw_char(&f, 'A', p(i32::MAX, 0)));
    // the rightmost set column of 'A' is 2
    assert!(can_draw_char(&f, 'A', p(i32::MAX - 2, 0)));
    assert!(!can_draw_char(&f, 'A', p(i32::MAX - 1, 0)));
    // the bottom row is set
    assert!(!can_draw_char(&f, 'A', p(0, i32::MAX)));
    const SHORT: [GlyphEntry; 1] = [GlyphEntry { width: 8, offset: 1 }];
    const ONE: [u8; 1] = [0];
    let short = Font::new(&SHORT, &ONE, 'A' as u32, 'A' as u32, 1, false);
    assert!(!can_draw_char(&short, 'A', p(0, 0)));
}

#[test]
fn str_layout_advances_by_width_and_tracking() {
    let f = font();
    let (origins, end) = str_layout(&f, "AxB", p(10, 5), 2);
    // 'x' has no glyph: it adds no width but still the tracking
    assert_eq!(origins, vec![p(10, 5), p(15, 5), p(17, 5)]);
    assert_eq!(end, p(28, 5));
}

#[test]
fn str_layout_empty_text() {
    let f = font();
    let (origins, end) = str_layout(&f, "", p(3, 4), 7);
    assert!(origins.is_empty());
    assert_eq!(end, p(3, 4));
}

#[test]
fn str_layout_negative_tracking() {
    let f = font();
    let (origins, end) = str_layout(&f, "AA", p(0, 0), -4);
    assert_eq!(origins, vec![p(0, 0), p(-1, 0)]);
    assert_eq!(end, p(-2, 0));
}

#[test]
fn layout_continues_where_it_left_off() {
    let f = font();
    let (first, end) = str_layout(&f, "AB", p(0, 9), 1);
    let (second, end2) = str_layout(&f, "xA", end, 1);
    let (whole, end_whole) = str_layout(&f, "ABxA", p(0, 9), 1);
    let mut joined = first.clone();
    joined.extend(second);
    assert_eq!(whole, joined);
    assert_eq!(end_whole, end2);
}

#[test]
fn layout_end_is_measure_plus_trailing_tracking() {
    let f = font();
    let (_, end) = str_layout(&f, "ABA", p(5, 0), 3);
    assert_eq!(end.x - 5, f.measure_str("ABA", 3) as i32 + 3);
    let (_, end) = str_layout(&f, "AxB", p(5, 0), 0);
    assert_eq!(end.x - 5, f.measure_str("AxB", 0) as i32);
}

#[test]
fn can_lay_out_reports_overflow() {
    let f = font();
    assert!(can_lay_out(&f, "AB", p(0, 0), 2));
    assert!(!can_lay_out(&f, "A", p(i32::MAX - 2, 0), 0));
    assert!(can_lay_out(&f, "A", p(i32::MAX - 3, 0), 0));
    assert!(can_lay_out(&f, "x", p(0, 0), i32::MAX));
    assert!(!can_lay_out(&f, "A", p(0, 0), i32::MAX));
    assert!(!can_lay_out(&f, "xx", p(i32::MIN, 0), -1));
}

#[test]
fn next_cursor_steps_by_width_and_tracking() {
    let f = font();
    assert_eq!(next_cursor(&f, 'B', p(1, 2), 3), Some(p(13, 2)));
    assert_eq!(next_cursor(&f, 'x', p(1, 2), 3), Some(p(4, 2)));
    assert_eq!(next_cursor(&f, 'A', p(1, 2), -5), Some(p(-1, 2)));
}

#[test]
fn next_cursor_none_on_overflow() {
    let f = font();
    assert_eq!(next_cursor(&f, 'A', p(i32::MAX - 3, 0), 1), None);
    assert_eq!(next_cursor(&f, 'A', p(i32::MAX - 3, 0), 0), Some(p(i32::MAX, 0)));
    assert_eq!(next_cursor(&f, 'A', p(0, 0), i32::MAX), None);
    assert_eq!(next_cursor(&f, 'x', p(i32::MIN, 0), -1), None);
}

#[test]
fn layout_end_is_measure_plus_tracking_when_negative() {
    let f = font();
    let (_, end) = str_layout(&f, "AB", p(20, 0), -1);
    assert_eq!(end, p(30, 0));
    assert_eq!(end.x - 20, f.measure_str("AB", -1) as i32 - 1);
}
