# embedded-graphics-profont

A bitmap font library whose logic is verified with Verus.

- `src/font.rs`: `Font`, `GlyphEntry`, glyph lookup and text measurement;
  `Text` and `Character`, placed by an anchor point.
- `src/geometry.rs`: `Point`, `Anchor` and anchor placement.
- `src/renderer.rs`: decoding of packed glyph bitmaps into pixels and the
  layout of a line of text.
- `app/lib.rs`: drawing on `embedded-graphics` targets (`DrawTarget`,
  `Drawable`) with the library's results.

`Font::new` is an ordinary function, so a font held in a `const` is written
as a struct literal:

```rust
pub const FONT: Font = Font {
    lookup_table: &GLYPHS,
    data: &FONT_DATA,
    ascii_begin: 32,
    ascii_end: 126,
    max_height: 8,
    proportional_width: false,
};
```
