//! The computations behind rendering: which pixels a glyph sets, and where
//! each character of a string starts.

use vstd::prelude::*;

use crate::font::{bytes_per_row, Font, GlyphEntry};
use crate::geometry::Point;

verus! {

/// The coordinates of a sequence of points, as pairs of integers.
pub open spec fn point_seq(v: Seq<Point>) -> Seq<(int, int)> {
    v.map_values(|p: Point| (p.x as int, p.y as int))
}

/// Bit `k` of `byte`, counting from the most significant bit (`k == 0`) down.
pub open spec fn msb_bit(byte: u8, k: int) -> bool {
    (byte >> ((7 - k) as u8)) & 1u8 == 1u8
}

/// Whether the pixel in row `row` (counted from the top) and column `col` of
/// the glyph `e` is set. Each row packs its pixels eight to a byte, the
/// leftmost in the most significant bit; the rows are stored bottom-up, so
/// drawn row `row` comes from stored row `max_height - 1 - row`.
pub open spec fn pixel_set(font: &Font, e: GlyphEntry, row: int, col: int) -> bool {
    let stored_row = font.max_height - 1 - row;
    let byte = font.glyph_bytes(e)[stored_row * bytes_per_row(e.width) + col / 8];
    msb_bit(byte, col % 8)
}

/// The pixels set in the first `ncols` columns of row `row` of the glyph `e`
/// drawn with its top left corner at `(x, y)`, from left to right.
pub open spec fn row_pixels(font: &Font, e: GlyphEntry, x: int, y: int, row: int, ncols: int) -> Seq<
    (int, int),
>
    decreases ncols,
{
    if ncols <= 0 {
        seq![]
    } else {
        row_pixels(font, e, x, y, row, ncols - 1) + if pixel_set(font, e, row, ncols - 1) {
            seq![(x + ncols - 1, y + row)]
        } else {
            seq![]
        }
    }
}

/// The pixels set in the first `nrows` rows of the glyph `e` drawn with its
/// top left corner at `(x, y)`, row by row from the top.
pub open spec fn rows_pixels(font: &Font, e: GlyphEntry, x: int, y: int, nrows: int) -> Seq<(int, int)>
    decreases nrows,
{
    if nrows <= 0 {
        seq![]
    } else {
        rows_pixels(font, e, x, y, nrows - 1) + row_pixels(font, e, x, y, nrows - 1, e.width as int)
    }
}

/// All pixels set in the glyph `e` drawn with its top left corner at `(x, y)`.
pub open spec fn glyph_pixel_seq(font: &Font, e: GlyphEntry, x: int, y: int) -> Seq<(int, int)> {
    rows_pixels(font, e, x, y, font.max_height as int)
}

/// Every pixel that the glyph `e` sets, drawn at `(x, y)`, has coordinates
/// within the range of `i32`.
pub open spec fn pixels_fit(font: &Font, e: GlyphEntry, x: int, y: int) -> bool {
    forall|row: int, col: int|
        0 <= row < font.max_height && 0 <= col < e.width && #[trigger] pixel_set(font, e, row, col)
            ==> x + col <= i32::MAX && y + row <= i32::MAX
}

/// The character `ch` can be drawn at `(x, y)`: when the font has a glyph for
/// it, the glyph's bitmap lies within the font data and its pixels fit.
pub open spec fn char_fits(font: &Font, ch: char, x: int, y: int) -> bool {
    font.glyph_of(ch) matches Some(e) ==> font.glyph_in_data(e) && pixels_fit(font, e, x, y)
}

/// The bit of the font data that decides the pixel in row `row` (from the
/// top) and column `col` of the glyph `e`: in the byte `col / 8` of stored row
/// `max_height - 1 - row` (rows stored bottom-up, each `ceil(width / 8)`
/// bytes from the glyph's offset), the bit `7 - col % 8` (the leftmost pixel
/// in the most significant bit).
pub proof fn lemma_pixel_set_reads_data(font: &Font, e: GlyphEntry, row: int, col: int)
    requires
        font.glyph_in_data(e),
        0 <= row < font.max_height,
        0 <= col < e.width,
    ensures
        pixel_set(font, e, row, col) == ((font.data@[e.offset + (font.max_height - 1 - row) * ((
        e.width + 7) / 8) + col / 8] >> ((7 - col % 8) as u8)) & 1u8 == 1u8),
{
    let bpr = (e.width + 7) / 8;
    let stored = font.max_height - 1 - row;
    assert(stored * bpr + col / 8 < bpr * font.max_height) by (nonlinear_arith)
        requires
            0 <= stored < font.max_height,
            0 <= col / 8 < bpr,
    ;
    assert(stored * bpr >= 0) by (nonlinear_arith)
        requires
            0 <= stored,
            0 <= bpr,
    ;
}

proof fn lemma_mask_is_msb(b: u8, s: u8)
    by (bit_vector)
    requires
        s < 8,
    ensures
        ((b & (1u8 << s)) != 0u8) == (((b >> s) & 1u8) == 1u8),
{
}

/// Whether the pixel at `row`, `col` of the glyph `entry` is set, reading the
/// glyph's own bytes `glyph_bytes`.
fn glyph_pixel_is_set(font: &Font, entry: &GlyphEntry, glyph_bytes: &[u8], row: u8, col: u8) -> (r:
    bool)
    requires
        font.glyph_in_data(*entry),
        glyph_bytes@ == font.glyph_bytes(*entry),
        row < font.max_height,
        col < entry.width,
    ensures
        r == pixel_set(font, *entry, row as int, col as int),
{
    let bytes_per_row = (entry.width as usize + 7) / 8;
    let actual_row = font.max_height as usize - 1 - row as usize;
    assert(actual_row * bytes_per_row + (col as usize / 8) < bytes_per_row * (font.max_height as usize))
        by (nonlinear_arith)
        requires
            actual_row < font.max_height,
            (col as usize / 8) < bytes_per_row,
    ;
    assert(actual_row * bytes_per_row <= 255 * 32) by (nonlinear_arith)
        requires
            actual_row < 255,
            bytes_per_row <= 32,
    ;
    let row_offset = actual_row * bytes_per_row;
    let byte_index = row_offset + (col as usize / 8);
    let bit_index = 7 - (col % 8);
    proof {
        lemma_mask_is_msb(glyph_bytes@[byte_index as int], bit_index);
    }
    (glyph_bytes[byte_index] & (1 << bit_index)) != 0
}

/// The pixels of the glyph `entry` drawn with its top left corner at
/// `position`, row by row from the top and from left to right in each row.
pub fn glyph_pixels(font: &Font, entry: &GlyphEntry, position: Point) -> (r: Vec<Point>)
    requires
        font.glyph_in_data(*entry),
        pixels_fit(font, *entry, position.x as int, position.y as int),
    ensures
        point_seq(r@) == glyph_pixel_seq(font, *entry, position.x as int, position.y as int),
        forall|px: int, py: int|
            #[trigger] point_seq(r@).contains((px, py)) <==> {
                &&& position.x <= px < position.x + entry.width
                &&& position.y <= py < position.y + font.max_height
                &&& (font.data@[entry.offset + (font.max_height - 1 - (py - position.y)) * ((
                entry.width + 7) / 8) + (px - position.x) / 8] >> ((7 - (px - position.x) % 8) as u8))
                    & 1u8 == 1u8
            },
{
    let ghost x = position.x as int;
    let ghost y = position.y as int;
    let glyph_bytes = font.glyph_data(entry);
    let mut pixels: Vec<Point> = Vec::new();
    let mut row: u8 = 0;
    while row < font.max_height
        invariant
            row <= font.max_height,
            font.glyph_in_data(*entry),
            pixels_fit(font, *entry, x, y),
            x == position.x,
            y == position.y,
            glyph_bytes@ == font.glyph_bytes(*entry),
            point_seq(pixels@) == rows_pixels(font, *entry, x, y, row as int),
        decreases font.max_height - row,
    {
        let mut col: u8 = 0;
        while col < entry.width
            invariant
                row < font.max_height,
                col <= entry.width,
                font.glyph_in_data(*entry),
                pixels_fit(font, *entry, x, y),
                x == position.x,
                y == position.y,
                glyph_bytes@ == font.glyph_bytes(*entry),
                point_seq(pixels@) == rows_pixels(font, *entry, x, y, row as int) + row_pixels(
                    font,
                    *entry,
                    x,
                    y,
                    row as int,
                    col as int,
                ),
            decreases entry.width - col,
        {
            let ghost before = pixels@;
            let is_set = glyph_pixel_is_set(font, entry, glyph_bytes, row, col);
            if is_set {
                let p = Point::new(position.x + col as i32, position.y + row as i32);
                pixels.push(p);
                assert(point_seq(pixels@) =~= point_seq(before).push((x + col, y + row)));
            }
            col += 1;
        }
        row += 1;
    }
    proof {
        let e = *entry;
        assert forall|px: int, py: int|
            #[trigger] point_seq(pixels@).contains((px, py)) <==> {
                &&& x <= px < x + e.width
                &&& y <= py < y + font.max_height
                &&& (font.data@[e.offset + (font.max_height - 1 - (py - y)) * ((e.width + 7) / 8) + (
                px - x) / 8] >> ((7 - (px - x) % 8) as u8)) & 1u8 == 1u8
            } by {
            lemma_glyph_pixels_are_set_bits(font, e, x, y, (px, py));
            if x <= px < x + e.width && y <= py < y + font.max_height {
                lemma_pixel_set_reads_data(font, e, py - y, px - x);
                if pixel_set(font, e, py - y, px - x) {
                    assert((px, py) == (x + (px - x), y + (py - y)));
                }
            }
            if point_seq(pixels@).contains((px, py)) {
                let (row, col) = choose|row: int, col: int|
                    0 <= row < font.max_height && 0 <= col < e.width && #[trigger] pixel_set(
                        font,
                        e,
                        row,
                        col,
                    ) && (px, py) == (x + col, y + row);
                lemma_pixel_set_reads_data(font, e, row, col);
            }
        }
    }
    pixels
}

/// An element lies in a concatenation exactly when it lies in one of its parts.
proof fn lemma_concat_contains(a: Seq<(int, int)>, b: Seq<(int, int)>, p: (int, int))
    ensures
        (a + b).contains(p) <==> a.contains(p) || b.contains(p),
{
    if a.contains(p) {
        let i = choose|i: int| 0 <= i < a.len() && a[i] == p;
        assert((a + b)[i] == p);
    }
    if b.contains(p) {
        let j = choose|j: int| 0 <= j < b.len() && b[j] == p;
        assert((a + b)[a.len() + j] == p);
    }
    if (a + b).contains(p) {
        let k = choose|k: int| 0 <= k < (a + b).len() && (a + b)[k] == p;
        if k < a.len() {
            assert(a[k] == p);
        } else {
            assert(b[k - a.len()] == p);
        }
    }
}

/// The pixels of one row are those of its set bits.
proof fn lemma_row_pixels_members(
    font: &Font,
    e: GlyphEntry,
    x: int,
    y: int,
    row: int,
    ncols: int,
    p: (int, int),
)
    ensures
        row_pixels(font, e, x, y, row, ncols).contains(p) <==> exists|col: int|
            0 <= col < ncols && #[trigger] pixel_set(font, e, row, col) && p == (x + col, y + row),
    decreases ncols,
{
    if ncols > 0 {
        let last = if pixel_set(font, e, row, ncols - 1) {
            seq![(x + ncols - 1, y + row)]
        } else {
            seq![]
        };
        lemma_row_pixels_members(font, e, x, y, row, ncols - 1, p);
        lemma_concat_contains(row_pixels(font, e, x, y, row, ncols - 1), last, p);
        if last.contains(p) {
            assert(last[0] == p);
            assert(pixel_set(font, e, row, ncols - 1));
        }
        if p == (x + ncols - 1, y + row) && pixel_set(font, e, row, ncols - 1) {
            assert(last[0] == p);
        }
    }
}

/// The pixels of the first `nrows` rows are those of their set bits.
proof fn lemma_rows_pixels_members(
    font: &Font,
    e: GlyphEntry,
    x: int,
    y: int,
    nrows: int,
    p: (int, int),
)
    ensures
        rows_pixels(font, e, x, y, nrows).contains(p) <==> exists|row: int, col: int|
            0 <= row < nrows && 0 <= col < e.width && #[trigger] pixel_set(font, e, row, col) && p
                == (x + col, y + row),
    decreases nrows,
{
    if nrows > 0 {
        lemma_rows_pixels_members(font, e, x, y, nrows - 1, p);
        lemma_row_pixels_members(font, e, x, y, nrows - 1, e.width as int, p);
        lemma_concat_contains(
            rows_pixels(font, e, x, y, nrows - 1),
            row_pixels(font, e, x, y, nrows - 1, e.width as int),
            p,
        );
        if exists|row: int, col: int|
            0 <= row < nrows && 0 <= col < e.width && #[trigger] pixel_set(font, e, row, col) && p
                == (x + col, y + row) {
            let (row, col) = choose|row: int, col: int|
                0 <= row < nrows && 0 <= col < e.width && #[trigger] pixel_set(font, e, row, col)
                    && p == (x + col, y + row);
            if row == nrows - 1 {
                assert(pixel_set(font, e, nrows - 1, col));
            } else {
                assert(pixel_set(font, e, row, col));
            }
        }
    }
}

/// A glyph draws exactly one pixel for each set bit of its bitmap: a point is
/// among the glyph's pixels if and only if it lies at `(x + col, y + row)`
/// for a set pixel at `row`, `col` of the glyph; in particular every pixel
/// lies in the box `width` wide and `max_height` tall at `(x, y)`.
pub proof fn lemma_glyph_pixels_are_set_bits(font: &Font, e: GlyphEntry, x: int, y: int, p: (int, int))
    ensures
        glyph_pixel_seq(font, e, x, y).contains(p) <==> exists|row: int, col: int|
            0 <= row < font.max_height && 0 <= col < e.width && #[trigger] pixel_set(
                font,
                e,
                row,
                col,
            ) && p == (x + col, y + row),
{
    lemma_rows_pixels_members(font, e, x, y, font.max_height as int, p);
}

/// `p` comes before `q` when scanning row by row from the top and from left
/// to right within a row.
pub open spec fn scan_before(p: (int, int), q: (int, int)) -> bool {
    p.1 < q.1 || (p.1 == q.1 && p.0 < q.0)
}

/// The pixels of one row lie in that row, within its first `ncols` columns,
/// from left to right.
proof fn lemma_row_pixels_ordered(font: &Font, e: GlyphEntry, x: int, y: int, row: int, ncols: int)
    ensures
        forall|k: int|
            0 <= k < row_pixels(font, e, x, y, row, ncols).len() ==> {
                let q = #[trigger] row_pixels(font, e, x, y, row, ncols)[k];
                q.1 == y + row && x <= q.0 < x + ncols
            },
        forall|i: int, j: int|
            0 <= i < j < row_pixels(font, e, x, y, row, ncols).len() ==> #[trigger] row_pixels(
                font,
                e,
                x,
                y,
                row,
                ncols,
            )[i].0 < #[trigger] row_pixels(font, e, x, y, row, ncols)[j].0,
    decreases ncols,
{
    if ncols > 0 {
        lemma_row_pixels_ordered(font, e, x, y, row, ncols - 1);
        let a = row_pixels(font, e, x, y, row, ncols - 1);
        let last = if pixel_set(font, e, row, ncols - 1) {
            seq![(x + ncols - 1, y + row)]
        } else {
            seq![]
        };
        let s = row_pixels(font, e, x, y, row, ncols);
        assert(s == a + last);
        assert forall|k: int| 0 <= k < s.len() implies {
            let q = #[trigger] s[k];
            q.1 == y + row && x <= q.0 < x + ncols
        } by {
            if k >= a.len() {
                assert(s[k] == last[k - a.len()]);
            } else {
                assert(s[k] == a[k]);
            }
        }
        assert forall|i: int, j: int| 0 <= i < j < s.len() implies #[trigger] s[i].0
            < #[trigger] s[j].0 by {
            if j < a.len() {
                assert(s[i] == a[i] && s[j] == a[j]);
            } else {
                assert(s[i] == a[i] && s[j] == last[0]);
            }
        }
    }
}

/// The pixels of the first `nrows` rows lie within those rows, in scanning order.
proof fn lemma_rows_pixels_ordered(font: &Font, e: GlyphEntry, x: int, y: int, nrows: int)
    ensures
        forall|k: int|
            0 <= k < rows_pixels(font, e, x, y, nrows).len() ==> y <= (#[trigger] rows_pixels(
                font,
                e,
                x,
                y,
                nrows,
            )[k]).1 < y + nrows,
        forall|i: int, j: int|
            0 <= i < j < rows_pixels(font, e, x, y, nrows).len() ==> scan_before(
                #[trigger] rows_pixels(font, e, x, y, nrows)[i],
                #[trigger] rows_pixels(font, e, x, y, nrows)[j],
            ),
    decreases nrows,
{
    if nrows > 0 {
        let a = rows_pixels(font, e, x, y, nrows - 1);
        let b = row_pixels(font, e, x, y, nrows - 1, e.width as int);
        lemma_rows_pixels_ordered(font, e, x, y, nrows - 1);
        lemma_row_pixels_ordered(font, e, x, y, nrows - 1, e.width as int);
        let s = rows_pixels(font, e, x, y, nrows);
        assert(s == a + b);
        assert forall|k: int| 0 <= k < s.len() implies y <= (#[trigger] s[k]).1 < y + nrows by {
            if k >= a.len() {
                assert(s[k] == b[k - a.len()]);
            }
        }
        assert forall|i: int, j: int| 0 <= i < j < s.len() implies scan_before(
            #[trigger] s[i],
            #[trigger] s[j],
        ) by {
            if j < a.len() {
                assert(s[i] == a[i] && s[j] == a[j]);
            } else if i < a.len() {
                assert(s[i] == a[i] && s[j] == b[j - a.len()]);
            } else {
                assert(s[i] == b[i - a.len()] && s[j] == b[j - a.len()]);
            }
        }
    }
}

/// A glyph draws its pixels in scanning order, row by row from the top and
/// from left to right, so it never draws the same pixel twice.
pub proof fn lemma_glyph_pixels_in_scan_order(font: &Font, e: GlyphEntry, x: int, y: int)
    ensures
        forall|i: int, j: int|
            0 <= i < j < glyph_pixel_seq(font, e, x, y).len() ==> scan_before(
                #[trigger] glyph_pixel_seq(font, e, x, y)[i],
                #[trigger] glyph_pixel_seq(font, e, x, y)[j],
            ),
        glyph_pixel_seq(font, e, x, y).no_duplicates(),
{
    lemma_rows_pixels_ordered(font, e, x, y, font.max_height as int);
    let s = glyph_pixel_seq(font, e, x, y);
    assert forall|i: int, j: int| 0 <= i < s.len() && 0 <= j < s.len() && i != j implies s[i]
        != s[j] by {
        if i < j {
            assert(scan_before(s[i], s[j]));
        } else {
            assert(scan_before(s[j], s[i]));
        }
    }
}

/// The pixels of the character `ch` drawn with the top left corner of its
/// glyph at `position`, and the glyph's width; `None` when the font has no
/// glyph for `ch`, in which case nothing is drawn.
pub fn char_pixels(font: &Font, ch: char, position: Point) -> (r: Option<(Vec<Point>, u32)>)
    requires
        char_fits(font, ch, position.x as int, position.y as int),
    ensures
        r is None <==> font.glyph_of(ch) is None,
        r matches Some((pixels, width)) ==> {
            let e = font.glyph_of(ch)->0;
            &&& width == e.width
            &&& point_seq(pixels@) == glyph_pixel_seq(font, e, position.x as int, position.y as int)
        },
{
    match font.get_glyph(ch) {
        Some(entry) => Some((glyph_pixels(font, entry, position), entry.width as u32)),
        None => None,
    }
}

/// Whether the character `ch` can be drawn at `position`: its glyph's bitmap
/// lies within the font data and none of its pixels leaves the range of `i32`.
pub fn can_draw_char(font: &Font, ch: char, position: Point) -> (r: bool)
    ensures
        r == char_fits(font, ch, position.x as int, position.y as int),
{
    let entry = match font.get_glyph(ch) {
        Some(entry) => entry,
        None => return true,
    };
    if !font.has_glyph_data(entry) {
        return false;
    }
    let ghost x = position.x as int;
    let ghost y = position.y as int;
    let ghost e = *entry;
    let glyph_bytes = font.glyph_data(entry);
    let mut row: u8 = 0;
    while row < font.max_height
        invariant
            row <= font.max_height,
            font.glyph_in_data(e),
            e == *entry,
            font.glyph_of(ch) == Some(e),
            x == position.x,
            y == position.y,
            glyph_bytes@ == font.glyph_bytes(e),
            forall|r: int, c: int|
                0 <= r < row && 0 <= c < e.width && #[trigger] pixel_set(font, e, r, c) ==> x + c
                    <= i32::MAX && y + r <= i32::MAX,
        decreases font.max_height - row,
    {
        let mut col: u8 = 0;
        while col < entry.width
            invariant
                row < font.max_height,
                col <= entry.width,
                font.glyph_in_data(e),
                e == *entry,
                font.glyph_of(ch) == Some(e),
                x == position.x,
                y == position.y,
                glyph_bytes@ == font.glyph_bytes(e),
                forall|r: int, c: int|
                    0 <= r < row && 0 <= c < e.width && #[trigger] pixel_set(font, e, r, c) ==> x
                        + c <= i32::MAX && y + r <= i32::MAX,
                forall|c: int|
                    0 <= c < col && #[trigger] pixel_set(font, e, row as int, c) ==> x + c
                        <= i32::MAX && y + row <= i32::MAX,
            decreases entry.width - col,
        {
            if glyph_pixel_is_set(font, entry, glyph_bytes, row, col) {
                if position.x as i64 + col as i64 > i32::MAX as i64 || position.y as i64 + row as i64
                    > i32::MAX as i64 {
                    assert(pixel_set(font, e, row as int, col as int));
                    assert(!pixels_fit(font, e, x, y));
                    return false;
                }
            }
            col += 1;
        }
        row += 1;
    }
    true
}

/// The width a character takes in a line of text: its glyph's width, or
/// nothing when the font has no glyph for it.
pub open spec fn char_width(font: &Font, c: char) -> int {
    match font.glyph_of(c) {
        Some(e) => e.width as int,
        None => 0,
    }
}

/// How far the cursor moves past the characters of `s`: each moves it by its
/// width plus `tracking`, supported or not.
pub open spec fn cursor_offset(font: &Font, s: Seq<char>, tracking: int) -> int
    decreases s.len(),
{
    if s.len() == 0 {
        0
    } else {
        cursor_offset(font, s.drop_last(), tracking) + char_width(font, s.last()) + tracking
    }
}

/// Where each character of `s` starts when the line starts at `(x, y)`.
pub open spec fn layout_origins(font: &Font, s: Seq<char>, x: int, y: int, tracking: int) -> Seq<
    (int, int),
> {
    Seq::new(s.len(), |i: int| (x + cursor_offset(font, s.take(i), tracking), y))
}

/// Where the character after `s` would start when the line starts at `(x, y)`.
pub open spec fn layout_end(font: &Font, s: Seq<char>, x: int, y: int, tracking: int) -> (int, int) {
    (x + cursor_offset(font, s, tracking), y)
}

/// Moving the cursor at `x` past `c` stays within the range of `i32`.
pub open spec fn step_fits(font: &Font, c: char, x: int, tracking: int) -> bool {
    &&& char_width(font, c) + tracking <= i32::MAX
    &&& i32::MIN <= x + char_width(font, c) + tracking <= i32::MAX
}

/// Where the character after `c` starts when `c` starts at `cursor`: one
/// step of a line's layout, moving right by `c`'s width (nothing when the
/// font has no glyph for it) plus `tracking`. `None` when the new position
/// would leave the range of `i32`.
pub fn next_cursor(font: &Font, c: char, cursor: Point, tracking: i32) -> (r: Option<Point>)
    ensures
        r is Some <==> step_fits(font, c, cursor.x as int, tracking as int),
        r matches Some(p) ==> p.y == cursor.y && p.x == cursor.x + char_width(font, c)
            + tracking,
        r matches Some(p) ==> p.x == cursor.x + tracking + if font.ascii_begin <= c as u32
            <= font.ascii_end && (c as u32 - font.ascii_begin) < font.lookup_table@.len() {
            font.lookup_table@[c as u32 - font.ascii_begin].width as int
        } else {
            0
        },
{
    let width: i64 = match font.get_glyph(c) {
        Some(entry) => entry.width as i64,
        None => 0,
    };
    let step = width + tracking as i64;
    if step > i32::MAX as i64 {
        return None;
    }
    let x = cursor.x as i64 + step;
    if x < i32::MIN as i64 || x > i32::MAX as i64 {
        return None;
    }
    Some(Point::new(x as i32, cursor.y))
}

/// Laying out `s` from `x` stays within the range of `i32` at every step.
pub open spec fn layout_fits(font: &Font, s: Seq<char>, x: int, tracking: int) -> bool {
    &&& forall|i: int| 0 <= i < s.len() ==> char_width(font, #[trigger] s[i]) + tracking <= i32::MAX
    &&& forall|i: int|
        0 <= i <= s.len() ==> i32::MIN <= x + #[trigger] cursor_offset(font, s.take(i), tracking)
            <= i32::MAX
}

/// Where each character of `text` starts when the line starts at `position`,
/// advancing the cursor by each character's width (nothing for characters the
/// font cannot render) plus `tracking`; and where a following character would
/// start, which is where text on the same baseline continues.
pub fn str_layout(font: &Font, text: &str, position: Point, tracking: i32) -> (r: (Vec<Point>, Point))
    requires
        layout_fits(font, text@, position.x as int, tracking as int),
    ensures
        point_seq(r.0@) == layout_origins(
            font,
            text@,
            position.x as int,
            position.y as int,
            tracking as int,
        ),
        (r.1.x as int, r.1.y as int) == layout_end(
            font,
            text@,
            position.x as int,
            position.y as int,
            tracking as int,
        ),
{
    broadcast use vstd::string::axiom_spec_iter;

    let ghost s = text@;
    let ghost t = tracking as int;
    let ghost x = position.x as int;
    let ghost y = position.y as int;
    let mut origins: Vec<Point> = Vec::new();
    let mut cursor = position;
    assert(s.take(0) =~= Seq::<char>::empty());
    for c in it: text.chars()
        invariant
            it.seq() == s,
            s == text@,
            t == tracking,
            x == position.x,
            y == position.y,
            layout_fits(font, s, x, t),
            cursor.y == y,
            cursor.x == x + cursor_offset(font, s.take(it.index()), t),
            point_seq(origins@) =~= layout_origins(font, s.take(it.index()), x, y, t),
    {
        let ghost i = it.index();
        let ghost before = origins@;
        proof {
            assert(s.take(i + 1).drop_last() =~= s.take(i));
            assert(s.take(i + 1).last() == s[i]);
            assert(i32::MIN <= x + cursor_offset(font, s.take(i + 1), t) <= i32::MAX);
            assert(char_width(font, s[i]) + t <= i32::MAX);
        }
        origins.push(cursor);
        cursor = match next_cursor(font, c, cursor, tracking) {
            Some(next) => next,
            None => cursor,
        };
        proof {
            assert(s.take(i + 1).take(i) =~= s.take(i));
            assert(point_seq(origins@) =~= point_seq(before).push(
                (x + cursor_offset(font, s.take(i), t), y),
            ));
            assert forall|j: int| 0 <= j < i implies s.take(i + 1).take(j) =~= s.take(i).take(j) by {}
        }
    }
    assert(s.take(s.len() as int) =~= s);
    (origins, cursor)
}

/// The cursor moves past two strings one after the other as far as past
/// their concatenation.
pub proof fn lemma_cursor_offset_concat(font: &Font, a: Seq<char>, b: Seq<char>, tracking: int)
    ensures
        cursor_offset(font, a + b, tracking) == cursor_offset(font, a, tracking) + cursor_offset(
            font,
            b,
            tracking,
        ),
    decreases b.len(),
{
    if b.len() == 0 {
        assert(a + b =~= a);
    } else {
        assert((a + b).drop_last() =~= a + b.drop_last());
        lemma_cursor_offset_concat(font, a, b.drop_last(), tracking);
    }
}

/// Text continues where it left off: laying out `a + b` from `(x, y)` places
/// the characters of `a` as laying out `a` alone does, and those of `b` as
/// laying out `b` from the end of `a` does, and ends where that ends.
pub proof fn lemma_layout_continues(
    font: &Font,
    a: Seq<char>,
    b: Seq<char>,
    x: int,
    y: int,
    tracking: int,
)
    ensures
        layout_origins(font, a + b, x, y, tracking) == layout_origins(font, a, x, y, tracking)
            + layout_origins(font, b, layout_end(font, a, x, y, tracking).0, y, tracking),
        layout_end(font, a + b, x, y, tracking) == layout_end(
            font,
            b,
            layout_end(font, a, x, y, tracking).0,
            y,
            tracking,
        ),
{
    let whole = layout_origins(font, a + b, x, y, tracking);
    let parts = layout_origins(font, a, x, y, tracking) + layout_origins(
        font,
        b,
        layout_end(font, a, x, y, tracking).0,
        y,
        tracking,
    );
    assert forall|i: int| 0 <= i < whole.len() implies whole[i] == parts[i] by {
        if i < a.len() {
            assert((a + b).take(i) =~= a.take(i));
        } else {
            assert((a + b).take(i) =~= a + b.take(i - a.len()));
            lemma_cursor_offset_concat(font, a, b.take(i - a.len()), tracking);
        }
    }
    assert(whole =~= parts);
    lemma_cursor_offset_concat(font, a, b, tracking);
}

/// With tracking zero every character moves the cursor by its own width, so
/// the cursor ends exactly the measured width further on.
proof fn lemma_cursor_offset_is_advance_sum(font: &Font, s: Seq<char>)
    ensures
        cursor_offset(font, s, 0) == font.advance_sum(s, 0),
    decreases s.len(),
{
    if s.len() > 0 {
        lemma_cursor_offset_is_advance_sum(font, s.drop_last());
    }
}

/// When every character has a glyph, the cursor moves exactly as far as the
/// sum of advances that measuring adds up.
proof fn lemma_cursor_offset_all_supported(font: &Font, s: Seq<char>, tracking: int)
    requires
        forall|i: int| 0 <= i < s.len() ==> (#[trigger] font.glyph_of(s[i])) is Some,
    ensures
        cursor_offset(font, s, tracking) == font.advance_sum(s, tracking),
        font.glyph_count(s) == s.len(),
    decreases s.len(),
{
    if s.len() > 0 {
        assert forall|i: int| 0 <= i < s.drop_last().len() implies (#[trigger] font.glyph_of(
            s.drop_last()[i],
        )) is Some by {
            assert(s.drop_last()[i] == s[i]);
        }
        assert(font.glyph_of(s[s.len() - 1]) is Some);
        lemma_cursor_offset_all_supported(font, s.drop_last(), tracking);
    }
}

/// Without tracking, a line of text ends exactly its measured width after
/// where it starts.
pub proof fn lemma_layout_end_is_width_untracked(font: &Font, s: Seq<char>, x: int, y: int)
    ensures
        layout_end(font, s, x, y, 0) == (x + font.text_width(s, 0), y),
{
    lemma_cursor_offset_is_advance_sum(font, s);
    font.lemma_advance_sum_nonneg(s, 0);
}

/// A non-empty line of supported characters ends its measured width plus one
/// tracking (the trailing one) after where it starts, whenever its width is
/// not clamped at zero: for any non-negative tracking, and for negative
/// tracking as long as the glyph widths outweigh the tracking between them.
pub proof fn lemma_layout_end_is_width_plus_tracking(
    font: &Font,
    s: Seq<char>,
    x: int,
    y: int,
    tracking: int,
)
    requires
        tracking >= 0 || font.advance_sum(s, 0) + (s.len() - 1) * tracking >= 0,
        s.len() > 0,
        forall|i: int| 0 <= i < s.len() ==> (#[trigger] font.glyph_of(s[i])) is Some,
    ensures
        layout_end(font, s, x, y, tracking) == (x + font.text_width(s, tracking) + tracking, y),
{
    lemma_cursor_offset_all_supported(font, s, tracking);
    font.lemma_advance_sum_linear(s, tracking);
    font.lemma_text_width_formula(s, tracking);
    let n = s.len() as int;
    assert(n * tracking == (n - 1) * tracking + tracking) by (nonlinear_arith);
    if tracking >= 0 {
        assert((n - 1) * tracking >= 0) by (nonlinear_arith)
            requires
                n >= 1,
                tracking >= 0,
        ;
    }
}

/// Whether `str_layout` can lay out `text` from `position` with `tracking`
/// without leaving the range of `i32`.
pub fn can_lay_out(font: &Font, text: &str, position: Point, tracking: i32) -> (r: bool)
    ensures
        r == layout_fits(font, text@, position.x as int, tracking as int),
{
    broadcast use vstd::string::axiom_spec_iter;

    let ghost s = text@;
    let ghost t = tracking as int;
    let ghost x = position.x as int;
    let mut cursor: i64 = position.x as i64;
    assert(s.take(0) =~= Seq::<char>::empty());
    for c in it: text.chars()
        invariant
            it.seq() == s,
            s == text@,
            t == tracking,
            x == position.x,
            cursor == x + cursor_offset(font, s.take(it.index()), t),
            forall|i: int|
                0 <= i < it.index() ==> char_width(font, #[trigger] s[i]) + t <= i32::MAX,
            forall|i: int|
                0 <= i <= it.index() ==> i32::MIN <= x + #[trigger] cursor_offset(
                    font,
                    s.take(i),
                    t,
                ) <= i32::MAX,
    {
        let ghost i = it.index();
        proof {
            assert(s.take(i + 1).drop_last() =~= s.take(i));
            assert(s.take(i + 1).last() == s[i]);
        }
        let width: i64 = match font.get_glyph(c) {
            Some(entry) => entry.width as i64,
            None => 0,
        };
        if width + tracking as i64 > i32::MAX as i64 {
            return false;
        }
        cursor = cursor + width + tracking as i64;
        if cursor < i32::MIN as i64 || cursor > i32::MAX as i64 {
            assert(!(i32::MIN <= x + cursor_offset(font, s.take(i + 1), t) <= i32::MAX));
            return false;
        }
    }
    assert(s.take(s.len() as int) =~= s);
    true
}

} // verus!
