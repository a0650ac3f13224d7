use embedded_graphics_profont::{Anchor, Character, Font, GlyphEntry, Point, Text, WithAnchor};

const GLYPHS: [GlyphEntry; 3] = [
    GlyphEntry { width: 3, offset: 0 },
    GlyphEntry { width: 9, offset: 2 },
    GlyphEntry { width: 0, offset: 6 },
];

const DATA: [u8; 6] = [0b1010_0000, 0b0100_0000, 0xFF, 0x80, 0x01, 0x00];

fn font() -> Font {
    // Codes 'A'..='E' are claimed, but only three glyphs exist.
    Font::new(&GLYPHS, &DATA, 'A' as u32, 'E' as u32, 2, true)
}

#[test]
fn new_keeps_every_field() {
    let f = font();
    assert_eq!(f.lookup_table, &GLYPHS[..]);
    assert_eq!(f.data, &DATA[..]);
    assert_eq!(f.ascii_begin, 65);
    assert_eq!(f.ascii_end, 69);
    assert_eq!(f.max_height, 2);
    assert!(f.proportional_width);
}

#[test]
fn get_glyph_in_range() {
    let f = font();
    assert_eq!(f.get_glyph('A'), Some(&GlyphEntry { width: 3, offset: 0 }));
    assert_eq!(f.get_glyph('B'), Some(&GlyphEntry { width: 9, offset: 2 }));
    assert_eq!(f.get_glyph('C'), Some(&GlyphEntry { width: 0, offset: 6 }));
}

#[test]
fn get_glyph_outside_range_is_none() {
    let f = font();
    assert_eq!(f.get_glyph('@'), None);
    assert_eq!(f.get_glyph('F'), None);
    assert_eq!(f.get_glyph('é'), None);
}

#[test]
fn get_glyph_past_end_of_table_is_none() {
    let f = font();
    // 'D' and 'E' lie in the claimed range but have no table entry.
    assert_eq!(f.get_glyph('D'), None);
    assert_eq!(f.get_glyph('E'), None);
}

#[test]
fn glyph_data_slices_rows() {
    let f = font();
    assert_eq!(f.glyph_data(&GLYPHS[0]), &[0b1010_0000, 0b0100_0000][..]);
    // nine pixels wide: two bytes per row, two rows
    assert_eq!(f.glyph_data(&GLYPHS[1]), &[0xFF, 0x80, 0x01, 0x00][..]);
    assert_eq!(f.glyph_data(&GLYPHS[2]), &[] as &[u8]);
}

#[test]
fn has_glyph_data_detects_short_data() {
    let f = font();
    assert!(f.has_glyph_data(&GLYPHS[1]));
    assert!(!f.has_glyph_data(&GlyphEntry { width: 8, offset: 5 }));
    assert!(f.has_glyph_data(&GlyphEntry { width: 8, offset: 4 }));
}

#[test]
fn measure_without_tracking_sums_widths() {
    let f = font();
    assert_eq!(f.measure_str("AB", 0), 12);
    assert_eq!(f.measure_str("ABC", 0), 12);
    assert_eq!(f.measure_str("", 0), 0);
}

#[test]
fn measure_with_tracking_puts_it_between_characters() {
    let f = font();
    // 3 + 2 + 9
    assert_eq!(f.measure_str("AB", 2), 14);
    assert_eq!(f.measure_str("A", 2), 3);
    assert_eq!(f.measure_str("AAA", 1), 11);
}

#[test]
fn measure_skips_unsupported_characters() {
    let f = font();
    assert_eq!(f.measure_str("A?B", 2), 14);
    assert_eq!(f.measure_str("xyz", 5), 0);
}

#[test]
fn measure_negative_tracking_only_between_characters() {
    let f = font();
    // 3 - 5 + 3
    assert_eq!(f.measure_str("AA", -5), 1);
    // a single character takes no tracking at all
    assert_eq!(f.measure_str("A", -1), 3);
    // 3 - 1 + 9
    assert_eq!(f.measure_str("AB", -1), 11);
    // 3 - 7 + 3 - 7 + 3 < 0
    assert_eq!(f.measure_str("AAA", -7), 0);
}

const WIDE: [GlyphEntry; 2] = [GlyphEntry { width: 5, offset: 0 }, GlyphEntry { width: 4, offset: 8 }];
const WIDE_DATA: [u8; 16] = [0x80; 16];

#[test]
fn measure_negative_tracking_examples() {
    let f = Font::new(&WIDE, &WIDE_DATA, 65, 66, 8, true);
    assert_eq!(f.measure_str("AB", -1), 8);
    assert_eq!(f.measure_str("A", -10), 5);
    assert_eq!(f.measure_str("AB", -20), 0);
}

#[test]
fn right_anchored_text_ends_at_its_anchor_with_negative_tracking() {
    let f = font();
    let t = Text::new("AA", Point::new(100, 0), &f, ())
        .with_tracking(-1)
        .with_anchor(Anchor::TopRight);
    let o = t.origin();
    assert_eq!(o, Point::new(95, 0));
    // the second 'A' starts at 95 + 3 - 1 and is 3 wide
    assert_eq!(o.x + 3 - 1 + 3, 100);
}

#[test]
fn measure_does_not_depend_on_order() {
    let f = font();
    assert_eq!(f.measure_str("AB?A", 2), f.measure_str("A?AB", 2));
    assert_eq!(f.measure_str("AB", -1), f.measure_str("BA", -1));
}

#[test]
fn measure_of_concatenation() {
    let f = font();
    assert_eq!(f.measure_str("ABA", 2), f.measure_str("AB", 2) + 2 + f.measure_str("A", 2));
    assert_eq!(f.measure_str("AxB", 0), f.measure_str("Ax", 0) + f.measure_str("B", 0));
}

#[test]
fn measure_grows_with_tracking_and_text() {
    let f = font();
    assert!(f.measure_str("AB", -3) <= f.measure_str("AB", 0));
    assert!(f.measure_str("AB", 0) <= f.measure_str("AB", 4));
    assert!(f.measure_str("AB", 1) <= f.measure_str("ABA", 1));
    assert!(f.measure_str("BA", 1) <= f.measure_str("ABA", 1));
}

const BIG: [GlyphEntry; 1] = [GlyphEntry { width: 255, offset: 0 }];

#[test]
fn can_measure_reports_overflow_of_final_step() {
    let f = Font::new(&BIG, &[], 65, 65, 0, true);
    // each 'A' advances 255 - 55 = 200; the last step takes the final
    // tracking back, which leaves the range of i32 only for the longer text
    let long: String = "A".repeat(10_737_418);
    assert!(!f.can_measure(&long, -55));
    let shorter = &long[1..];
    assert!(f.can_measure(shorter, -55));
    assert_eq!(f.measure_str(shorter, -55), 2_147_483_455);
}

#[test]
fn can_measure_reports_overflow() {
    let f = font();
    assert!(f.can_measure("AB", 2));
    assert!(!f.can_measure("A", i32::MAX));
    assert!(!f.can_measure("BB", i32::MAX / 2));
    assert!(f.can_measure("?", i32::MAX));
    assert!(!f.can_measure("AA", i32::MIN));
}

#[test]
fn text_new_defaults() {
    let f = font();
    let t = Text::new("AB", Point::new(3, 4), &f, 7u32);
    assert_eq!(t.text(), "AB");
    assert_eq!(t.position(), Point::new(3, 4));
    assert_eq!(*t.color(), 7);
    assert_eq!(*t.background_color(), None);
    assert_eq!(t.anchor(), Anchor::TopLeft);
    assert_eq!(t.tracking(), 0);
    assert_eq!(t.font().max_height, 2);
}

#[test]
fn text_builders_change_one_field() {
    let f = font();
    let t = Text::new("AB", Point::new(3, 4), &f, 7u32)
        .with_background_color(9)
        .with_tracking(-2)
        .with_anchor(Anchor::BottomRight);
    assert_eq!(t.text(), "AB");
    assert_eq!(t.position(), Point::new(3, 4));
    assert_eq!(*t.color(), 7);
    assert_eq!(*t.background_color(), Some(9));
    assert_eq!(t.tracking(), -2);
    assert_eq!(t.anchor(), Anchor::BottomRight);
}

#[test]
fn text_origin_for_each_anchor() {
    let f = font();
    // "AB" measures 12 wide, the font is 2 tall
    let at = |anchor| {
        let t = Text::new("AB", Point::new(100, 50), &f, ()).with_anchor(anchor);
        assert!(t.can_place());
        t.origin()
    };
    assert_eq!(at(Anchor::TopLeft), Point::new(100, 50));
    assert_eq!(at(Anchor::TopCenter), Point::new(94, 50));
    assert_eq!(at(Anchor::TopRight), Point::new(88, 50));
    assert_eq!(at(Anchor::MiddleLeft), Point::new(100, 49));
    assert_eq!(at(Anchor::MiddleCenter), Point::new(94, 49));
    assert_eq!(at(Anchor::MiddleRight), Point::new(88, 49));
    assert_eq!(at(Anchor::BottomLeft), Point::new(100, 48));
    assert_eq!(at(Anchor::BottomCenter), Point::new(94, 48));
    assert_eq!(at(Anchor::BottomRight), Point::new(88, 48));
}

#[test]
fn text_origin_uses_tracked_width() {
    let f = font();
    let t = Text::new("AB", Point::new(100, 50), &f, ())
        .with_tracking(2)
        .with_anchor(Anchor::TopRight);
    // width 14
    assert_eq!(t.origin(), Point::new(86, 50));
    let t = Text::new("A", Point::new(0, 0), &f, ()).with_anchor(Anchor::MiddleCenter);
    // width 3 rounds down to 1 on halving
    assert_eq!(t.origin(), Point::new(-1, -1));
}

#[test]
fn text_can_place_reports_overflow() {
    let f = font();
    let t = Text::new("AB", Point::new(i32::MIN + 5, 0), &f, ()).with_anchor(Anchor::TopRight);
    assert!(!t.can_place());
    let t = Text::new("AB", Point::new(i32::MIN + 12, 0), &f, ()).with_anchor(Anchor::TopRight);
    assert!(t.can_place());
    assert_eq!(t.origin(), Point::new(i32::MIN, 0));
    let t = Text::new("A", Point::new(0, 0), &f, ()).with_tracking(i32::MAX);
    assert!(!t.can_place());
}

#[test]
fn character_defaults_and_builders() {
    let f = font();
    let c = Character::new('B', Point::new(10, 10), &f, 1u8);
    assert_eq!(c.ch(), 'B');
    assert_eq!(c.position(), Point::new(10, 10));
    assert_eq!(c.anchor(), Anchor::TopLeft);
    assert_eq!(*c.background_color(), None);
    let c = c.with_background_color(2).with_anchor(Anchor::BottomCenter);
    assert_eq!(*c.background_color(), Some(2));
    assert_eq!(*c.color(), 1);
    assert_eq!(c.anchor(), Anchor::BottomCenter);
    assert_eq!(c.font().ascii_begin, 65);
}

#[test]
fn character_origin_uses_glyph_width() {
    let f = font();
    let c = Character::new('B', Point::new(10, 10), &f, ()).with_anchor(Anchor::BottomCenter);
    assert!(c.can_place());
    assert_eq!(c.origin(), Some(Point::new(6, 8)));
    let c = Character::new('A', Point::new(10, 10), &f, ()).with_anchor(Anchor::MiddleRight);
    assert_eq!(c.origin(), Some(Point::new(7, 9)));
}

#[test]
fn unsupported_character_has_no_origin() {
    let f = font();
    let c = Character::new('z', Point::new(i32::MIN, i32::MIN), &f, ()).with_anchor(Anchor::BottomRight);
    assert!(c.can_place());
    assert_eq!(c.origin(), None);
}

#[test]
fn character_can_place_reports_overflow() {
    let f = font();
    let c = Character::new('A', Point::new(0, i32::MIN + 1), &f, ()).with_anchor(Anchor::BottomLeft);
    assert!(!c.can_place());
}

#[test]
fn centering_example_from_measure() {
    let f = font();
    let width = f.measure_str("AB", 0);
    let display_width = 480;
    let x = (display_width / 2) as i32 - (width as i32 / 2);
    assert_eq!(x, 234);
}

#[test]
fn subsequence_measures_no_wider() {
    let f = font();
    assert!(f.measure_str("AA", 1) <= f.measure_str("AxBA", 1));
    assert!(f.measure_str("BA", 2) <= f.measure_str("ABxA", 2));
    assert!(f.measure_str("", 2) <= f.measure_str("x", 2));
}
