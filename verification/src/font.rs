use vstd::prelude::*;

use crate::geometry::{anchor_fits, box_anchor_point, anchored_left, anchored_origin, anchored_top, can_anchor, Anchor, Point};

verus! {

/// Metadata for a single glyph in a font.
///
/// Used as entries in the font's lookup table to locate and describe each character's bitmap.
#[derive(Debug, Clone, Copy, PartialEq, Eq, Structural)]
pub struct GlyphEntry {
    /// Width of this glyph in pixels.
    pub width: u8,
    /// Byte offset in font data where this glyph's bitmap starts.
    pub offset: u16,
}

/// A bitmap font definition: glyph lookup table, packed bitmap data and metadata.
pub struct Font {
    /// Lookup table mapping characters to glyph metadata.
    pub lookup_table: &'static [GlyphEntry],
    /// Packed bitmap data for all glyphs.
    pub data: &'static [u8],
    /// First character code supported by this font.
    pub ascii_begin: u32,
    /// Last character code supported by this font.
    pub ascii_end: u32,
    /// Maximum height of glyphs in this font (in pixels).
    pub max_height: u8,
    /// Whether this font uses proportional widths (vs monospace).
    pub proportional_width: bool,
}

/// Bytes used by one row of a glyph `width` pixels wide: the pixels are packed
/// eight to a byte, and each row starts on a fresh byte.
pub open spec fn bytes_per_row(width: u8) -> int {
    (width + 7) / 8
}

impl Font {
    /// Create a new font definition.
    ///
    /// `lookup_table` holds one glyph entry per supported character, `data` the
    /// packed bitmaps, `ascii_begin..=ascii_end` the supported character codes,
    /// `max_height` the height of every glyph and `proportional_width` whether
    /// the glyphs have variable widths.
    pub fn new(
        lookup_table: &'static [GlyphEntry],
        data: &'static [u8],
        ascii_begin: u32,
        ascii_end: u32,
        max_height: u8,
        proportional_width: bool,
    ) -> (r: Self)
        ensures
            r.lookup_table == lookup_table,
            r.data == data,
            r.ascii_begin == ascii_begin,
            r.ascii_end == ascii_end,
            r.max_height == max_height,
            r.proportional_width == proportional_width,
    {
        Self { lookup_table, data, ascii_begin, ascii_end, max_height, proportional_width }
    }

    /// The number of bytes of bitmap data that the glyph `e` occupies.
    pub open spec fn glyph_len(&self, e: GlyphEntry) -> int {
        bytes_per_row(e.width) * self.max_height
    }

    /// The bitmap of the glyph `e` lies within the font's data.
    pub open spec fn glyph_in_data(&self, e: GlyphEntry) -> bool {
        e.offset + self.glyph_len(e) <= self.data@.len()
    }

    /// The bitmap bytes of the glyph `e`.
    pub open spec fn glyph_bytes(&self, e: GlyphEntry) -> Seq<u8> {
        self.data@.subrange(e.offset as int, e.offset + self.glyph_len(e))
    }

    /// Get the bitmap data for a glyph.
    ///
    /// Data is stored as packed bits: 8 bits per byte, where each set bit
    /// represents a pixel that should be drawn.
    pub fn glyph_data(&self, entry: &GlyphEntry) -> (r: &[u8])
        requires
            self.glyph_in_data(*entry),
        ensures
            r@ == self.glyph_bytes(*entry),
            r@.len() == self.glyph_len(*entry),
            r@.len() == (entry.width + 7) / 8 * self.max_height,
            forall|i: int| 0 <= i < r@.len() ==> #[trigger] r@[i] == self.data@[entry.offset + i],
    {
        let start = entry.offset as usize;
        let bytes_per_row = (entry.width as usize + 7) / 8;
        assert(bytes_per_row * (self.max_height as usize) <= 32 * 255) by (nonlinear_arith)
            requires
                bytes_per_row <= 32,
                self.max_height <= 255,
        ;
        let end = start + (bytes_per_row * self.max_height as usize);
        vstd::slice::slice_subrange(self.data, start, end)
    }

    /// Whether the glyph `e` lies within the font's data.
    pub fn has_glyph_data(&self, entry: &GlyphEntry) -> (r: bool)
        ensures
            r == self.glyph_in_data(*entry),
    {
        let bytes_per_row = (entry.width as usize + 7) / 8;
        assert(bytes_per_row * (self.max_height as usize) <= 32 * 255) by (nonlinear_arith)
            requires
                bytes_per_row <= 32,
                self.max_height <= 255,
        ;
        entry.offset as usize + bytes_per_row * self.max_height as usize <= self.data.len()
    }

    /// The position in the lookup table of the glyph for `c`, if the font has one.
    pub open spec fn glyph_index(&self, c: char) -> Option<int> {
        let code = c as int;
        if self.ascii_begin <= code <= self.ascii_end && code - self.ascii_begin < self.lookup_table@.len() {
            Some(code - self.ascii_begin)
        } else {
            None
        }
    }

    /// The glyph entry for `c`, if the font has one.
    pub open spec fn glyph_of(&self, c: char) -> Option<GlyphEntry> {
        match self.glyph_index(c) {
            Some(i) => Some(self.lookup_table@[i]),
            None => None,
        }
    }

    /// Get the glyph metadata for a character.
    ///
    /// Returns `None` if the character is not supported by this font.
    pub fn get_glyph(&self, c: char) -> (r: Option<&GlyphEntry>)
        ensures
            r matches Some(e) ==> self.glyph_of(c) == Some(*e),
            r is None <==> self.glyph_of(c) is None,
            r is Some <==> (self.ascii_begin <= c as u32 <= self.ascii_end && (c as u32
                - self.ascii_begin) < self.lookup_table@.len()),
            r matches Some(e) ==> *e == self.lookup_table@[c as u32 - self.ascii_begin],
    {
        let code = c as u32;
        if code >= self.ascii_begin && code <= self.ascii_end {
            let index = (code - self.ascii_begin) as usize;
            if index < self.lookup_table.len() {
                Some(&self.lookup_table[index])
            } else {
                None
            }
        } else {
            None
        }
    }
}

impl Font {
    /// How far `c` moves the measured width: its glyph width plus the
    /// tracking when the font has a glyph for it, nothing otherwise.
    pub open spec fn glyph_advance(&self, c: char, tracking: int) -> int {
        match self.glyph_of(c) {
            Some(e) => e.width + tracking,
            None => 0,
        }
    }

    /// The number of characters of `s` that the font has a glyph for.
    pub open spec fn glyph_count(&self, s: Seq<char>) -> nat
        decreases s.len(),
    {
        if s.len() == 0 {
            0
        } else {
            self.glyph_count(s.drop_last()) + if self.glyph_of(s.last()) is Some {
                1nat
            } else {
                0nat
            }
        }
    }

    /// The sum of the advances of the characters of `s`.
    pub open spec fn advance_sum(&self, s: Seq<char>, tracking: int) -> int
        decreases s.len(),
    {
        if s.len() == 0 {
            0
        } else {
            self.advance_sum(s.drop_last(), tracking) + self.glyph_advance(s.last(), tracking)
        }
    }

    /// The pixel width of `s`: the widths of its supported characters, with
    /// `tracking` between each two of them (and none after the last), never
    /// below zero.
    pub open spec fn text_width(&self, s: Seq<char>, tracking: int) -> int {
        let total = self.advance_sum(s, tracking) - if self.glyph_count(s) > 0 {
            tracking
        } else {
            0
        };
        if total > 0 {
            total
        } else {
            0
        }
    }

    /// Measuring `s` with `tracking` stays within the range of `i32` at every step.
    pub open spec fn measure_fits(&self, s: Seq<char>, tracking: int) -> bool {
        &&& self.glyph_count(s) <= i32::MAX
        &&& forall|i: int|
            0 <= i < s.len() ==> (#[trigger] self.glyph_of(s[i]) matches Some(e) ==> e.width
                + tracking <= i32::MAX)
        &&& forall|i: int|
            0 <= i <= s.len() ==> i32::MIN <= #[trigger] self.advance_sum(s.take(i), tracking)
                <= i32::MAX
        &&& self.glyph_count(s) > 0 ==> self.advance_sum(s, tracking) - tracking <= i32::MAX
    }

    /// `measure_fits` restricted to the first `n` characters of `s`.
    pub open spec fn measure_fits_upto(&self, s: Seq<char>, tracking: int, n: int) -> bool {
        &&& self.glyph_count(s.take(n)) <= i32::MAX
        &&& forall|i: int|
            0 <= i < n ==> (#[trigger] self.glyph_of(s[i]) matches Some(e) ==> e.width + tracking
                <= i32::MAX)
        &&& forall|i: int|
            0 <= i <= n ==> i32::MIN <= #[trigger] self.advance_sum(s.take(i), tracking)
                <= i32::MAX
    }

    /// Whether `measure_str` can measure `text` with `tracking` without leaving
    /// the range of `i32`.
    pub fn can_measure(&self, text: &str, tracking: i32) -> (r: bool)
        ensures
            r == self.measure_fits(text@, tracking as int),
    {
        broadcast use vstd::string::axiom_spec_iter;

        let ghost s = text@;
        let ghost t = tracking as int;
        let mut total: i64 = 0;
        let mut count: i64 = 0;
        assert(s.take(0) =~= Seq::<char>::empty());
        for c in it: text.chars()
            invariant
                it.seq() == s,
                s == text@,
                t == tracking,
                total == self.advance_sum(s.take(it.index()), t),
                count == self.glyph_count(s.take(it.index())),
                self.measure_fits_upto(s, t, it.index()),
        {
            let ghost i = it.index();
            proof {
                assert(s.take(i + 1).drop_last() =~= s.take(i));
                assert(s.take(i + 1).last() == s[i]);
            }
            if let Some(entry) = self.get_glyph(c) {
                let step = entry.width as i64 + tracking as i64;
                if step > i32::MAX as i64 {
                    assert(self.glyph_of(s[i]) == Some(*entry));
                    return false;
                }
                total = total + step;
                count = count + 1;
                if total < i32::MIN as i64 || total > i32::MAX as i64 {
                    assert(!(i32::MIN <= self.advance_sum(s.take(i + 1), t) <= i32::MAX));
                    return false;
                }
                if count > i32::MAX as i64 {
                    proof {
                        self.lemma_glyph_count_prefix(s, i + 1);
                    }
                    return false;
                }
            }
            assert(self.measure_fits_upto(s, t, i + 1));
        }
        assert(s.take(s.len() as int) =~= s);
        if count > 0 && total - tracking as i64 > i32::MAX as i64 {
            return false;
        }
        true
    }

    /// Counting glyphs over a prefix never gives more than over the whole text.
    pub proof fn lemma_glyph_count_prefix(&self, s: Seq<char>, i: int)
        requires
            0 <= i <= s.len(),
        ensures
            self.glyph_count(s.take(i)) <= self.glyph_count(s),
        decreases s.len(),
    {
        if i < s.len() {
            assert(s.drop_last().take(i) =~= s.take(i));
            self.lemma_glyph_count_prefix(s.drop_last(), i);
        } else {
            assert(s.take(i) =~= s);
        }
    }

    /// With non-negative tracking no advance is negative, so neither is their sum.
    pub proof fn lemma_advance_sum_nonneg(&self, s: Seq<char>, tracking: int)
        requires
            tracking >= 0,
        ensures
            self.advance_sum(s, tracking) >= 0,
        decreases s.len(),
    {
        if s.len() > 0 {
            self.lemma_advance_sum_nonneg(s.drop_last(), tracking);
        }
    }

    /// The characters of `s` that the font has a glyph for, in order.
    pub open spec fn supported_chars(&self, s: Seq<char>) -> Seq<char> {
        s.filter(|c: char| self.glyph_of(c) is Some)
    }

    /// Characters without a glyph neither add to the sum of advances nor to
    /// the glyph count.
    proof fn lemma_supported_chars_sums(&self, s: Seq<char>, tracking: int)
        ensures
            self.advance_sum(self.supported_chars(s), tracking) == self.advance_sum(s, tracking),
            self.glyph_count(self.supported_chars(s)) == self.glyph_count(s),
        decreases s.len(),
    {
        reveal(Seq::filter);
        if s.len() > 0 {
            self.lemma_supported_chars_sums(s.drop_last(), tracking);
            let sub = self.supported_chars(s.drop_last());
            if self.glyph_of(s.last()) is Some {
                assert(sub.push(s.last()).drop_last() =~= sub);
            }
        }
    }

    /// Unsupported characters contribute nothing to the measured width: a text
    /// measures exactly as wide as the text of its supported characters alone.
    pub proof fn lemma_unsupported_chars_add_no_width(&self, s: Seq<char>, tracking: int)
        ensures
            self.text_width(self.supported_chars(s), tracking) == self.text_width(s, tracking),
    {
        self.lemma_supported_chars_sums(s, tracking);
    }

    /// Sums of advances and glyph counts add up over a concatenation.
    pub proof fn lemma_sums_concat(&self, a: Seq<char>, b: Seq<char>, tracking: int)
        ensures
            self.advance_sum(a + b, tracking) == self.advance_sum(a, tracking) + self.advance_sum(
                b,
                tracking,
            ),
            self.glyph_count(a + b) == self.glyph_count(a) + self.glyph_count(b),
        decreases b.len(),
    {
        if b.len() == 0 {
            assert(a + b =~= a);
        } else {
            assert((a + b).drop_last() =~= a + b.drop_last());
            self.lemma_sums_concat(a, b.drop_last(), tracking);
        }
    }

    /// The sum of advances is the sum of the glyph widths plus one tracking
    /// per glyph.
    pub proof fn lemma_advance_sum_linear(&self, s: Seq<char>, tracking: int)
        ensures
            self.advance_sum(s, tracking) == self.advance_sum(s, 0) + self.glyph_count(s)
                * tracking,
        decreases s.len(),
    {
        if s.len() > 0 {
            self.lemma_advance_sum_linear(s.drop_last(), tracking);
            let n = self.glyph_count(s.drop_last()) as int;
            let c = self.glyph_count(s) as int;
            assert(self.advance_sum(s, tracking) == self.advance_sum(s.drop_last(), tracking)
                + self.glyph_advance(s.last(), tracking));
            assert(self.advance_sum(s, 0) == self.advance_sum(s.drop_last(), 0) + self.glyph_advance(
                s.last(),
                0,
            ));
            if self.glyph_of(s.last()) is Some {
                assert(c == n + 1);
                assert(c * tracking == n * tracking + tracking) by (nonlinear_arith)
                    requires
                        c == n + 1,
                ;
            } else {
                assert(c == n);
            }
        } else {
            let c = self.glyph_count(s) as int;
            assert(c * tracking == 0) by (nonlinear_arith)
                requires
                    c == 0,
            ;
        }
    }

    /// A text without glyphs does not advance.
    proof fn lemma_no_glyphs_no_advance(&self, s: Seq<char>, tracking: int)
        requires
            self.glyph_count(s) == 0,
        ensures
            self.advance_sum(s, tracking) == 0,
        decreases s.len(),
    {
        if s.len() > 0 {
            self.lemma_no_glyphs_no_advance(s.drop_last(), tracking);
        }
    }

    /// The measured width is the sum of the glyph widths plus the tracking
    /// between each two glyphs, never below zero.
    pub proof fn lemma_text_width_formula(&self, s: Seq<char>, tracking: int)
        ensures
            self.advance_sum(s, 0) >= 0,
            self.text_width(s, tracking) == if self.glyph_count(s) == 0 {
                0
            } else {
                let w = self.advance_sum(s, 0) + (self.glyph_count(s) - 1) * tracking;
                if w > 0 {
                    w
                } else {
                    0
                }
            },
    {
        self.lemma_advance_sum_linear(s, tracking);
        self.lemma_advance_sum_nonneg(s, 0);
        let n = self.glyph_count(s) as int;
        assert(n * tracking - tracking == (n - 1) * tracking) by (nonlinear_arith);
        if n == 0 {
            self.lemma_no_glyphs_no_advance(s, 0);
        }
    }

    /// A text with no more glyph width and no more glyphs measures no wider,
    /// for non-negative tracking.
    proof fn lemma_text_width_le(&self, s1: Seq<char>, s2: Seq<char>, tracking: int)
        requires
            tracking >= 0,
            self.advance_sum(s1, 0) <= self.advance_sum(s2, 0),
            self.glyph_count(s1) <= self.glyph_count(s2),
        ensures
            self.text_width(s1, tracking) <= self.text_width(s2, tracking),
    {
        self.lemma_text_width_formula(s1, tracking);
        self.lemma_text_width_formula(s2, tracking);
        let n1 = self.glyph_count(s1) as int;
        let n2 = self.glyph_count(s2) as int;
        if n1 > 0 {
            assert((n1 - 1) * tracking <= (n2 - 1) * tracking) by (nonlinear_arith)
                requires
                    1 <= n1 <= n2,
                    tracking >= 0,
            ;
        }
    }

    /// Removing the character at `k` takes exactly its advance out of the sum,
    /// and its glyph (if any) out of the count.
    pub proof fn lemma_sums_remove(&self, s: Seq<char>, k: int, tracking: int)
        requires
            0 <= k < s.len(),
        ensures
            self.advance_sum(s, tracking) == self.advance_sum(s.remove(k), tracking)
                + self.glyph_advance(s[k], tracking),
            self.glyph_count(s) == self.glyph_count(s.remove(k)) + if self.glyph_of(s[k]) is Some {
                1int
            } else {
                0int
            },
    {
        let p = s.take(k);
        let q = s.skip(k + 1);
        let x = seq![s[k]];
        assert(s =~= p + x + q);
        assert(s.remove(k) =~= p + q);
        assert(x.drop_last() =~= Seq::<char>::empty());
        assert(x.last() == s[k]);
        assert(self.advance_sum(x.drop_last(), tracking) == 0);
        assert(self.glyph_count(x.drop_last()) == 0);
        assert(self.advance_sum(x, tracking) == self.glyph_advance(s[k], tracking));
        self.lemma_sums_concat(p + x, q, tracking);
        self.lemma_sums_concat(p, x, tracking);
        self.lemma_sums_concat(p, q, tracking);
    }

    /// The sums of advances and the glyph count depend only on which
    /// characters a text holds, not on their order.
    proof fn lemma_sums_permutation(&self, s1: Seq<char>, s2: Seq<char>, tracking: int)
        requires
            s1.to_multiset() == s2.to_multiset(),
        ensures
            self.advance_sum(s1, tracking) == self.advance_sum(s2, tracking),
            self.glyph_count(s1) == self.glyph_count(s2),
        decreases s1.len(),
    {
        broadcast use vstd::seq_lib::group_to_multiset_ensures;

        if s1.len() == 0 {
            assert(s1.len() == s1.to_multiset().len());
            assert(s2.len() == s2.to_multiset().len());
            assert(s2 =~= s1);
        } else {
            let x = s1.last();
            let rest = s1.drop_last();
            assert(rest.push(x) =~= s1);
            assert(s1.to_multiset() =~= rest.to_multiset().insert(x));
            assert(s1.to_multiset().count(x) > 0);
            assert(s2.contains(x));
            let k = choose|k: int| 0 <= k < s2.len() && s2[k] == x;
            assert(s2.remove(k).to_multiset() =~= s2.to_multiset().remove(x));
            assert(rest.to_multiset() =~= s1.to_multiset().remove(x));
            self.lemma_sums_permutation(rest, s2.remove(k), tracking);
            self.lemma_sums_remove(s2, k, tracking);
        }
    }

    /// Measuring does not depend on the order of the characters: two texts
    /// holding the same characters measure the same.
    pub proof fn lemma_text_width_permutation(&self, s1: Seq<char>, s2: Seq<char>, tracking: int)
        requires
            s1.to_multiset() == s2.to_multiset(),
        ensures
            self.text_width(s1, tracking) == self.text_width(s2, tracking),
    {
        self.lemma_sums_permutation(s1, s2, tracking);
    }

    /// Measuring a concatenation: with non-negative tracking, and both parts
    /// holding glyphs unless the tracking is zero, the whole is as wide as the
    /// two parts with one tracking between them.
    pub proof fn lemma_text_width_concat(&self, a: Seq<char>, b: Seq<char>, tracking: int)
        requires
            tracking >= 0,
            tracking == 0 || (self.glyph_count(a) > 0 && self.glyph_count(b) > 0),
        ensures
            self.text_width(a + b, tracking) == self.text_width(a, tracking) + tracking
                + self.text_width(b, tracking),
    {
        self.lemma_sums_concat(a, b, 0);
        self.lemma_sums_concat(a, b, tracking);
        self.lemma_text_width_formula(a, tracking);
        self.lemma_text_width_formula(b, tracking);
        self.lemma_text_width_formula(a + b, tracking);
        let na = self.glyph_count(a) as int;
        let nb = self.glyph_count(b) as int;
        assert((na + nb - 1) * tracking == (na - 1) * tracking + tracking + (nb - 1) * tracking)
            by (nonlinear_arith);
        if na > 0 {
            assert((na - 1) * tracking >= 0) by (nonlinear_arith)
                requires
                    na >= 1,
                    tracking >= 0,
            ;
        }
        if nb > 0 {
            assert((nb - 1) * tracking >= 0) by (nonlinear_arith)
                requires
                    nb >= 1,
                    tracking >= 0,
            ;
        }
        if tracking == 0 {
            assert((na + nb - 1) * tracking == 0 && (na - 1) * tracking == 0 && (nb - 1) * tracking
                == 0) by (nonlinear_arith)
                requires
                    tracking == 0,
            ;
        }
    }

    /// More tracking never makes a text narrower.
    pub proof fn lemma_text_width_monotone_in_tracking(&self, s: Seq<char>, t1: int, t2: int)
        requires
            t1 <= t2,
        ensures
            self.text_width(s, t1) <= self.text_width(s, t2),
    {
        self.lemma_text_width_formula(s, t1);
        self.lemma_text_width_formula(s, t2);
        let n = self.glyph_count(s) as int;
        if n > 0 {
            assert((n - 1) * t1 <= (n - 1) * t2) by (nonlinear_arith)
                requires
                    n >= 1,
                    t1 <= t2,
            ;
        }
    }

    /// With non-negative tracking, each part of a concatenation (a prefix or a
    /// suffix of a text) measures no wider than the whole.
    pub proof fn lemma_text_width_parts_no_wider(&self, a: Seq<char>, b: Seq<char>, tracking: int)
        requires
            tracking >= 0,
        ensures
            self.text_width(a, tracking) <= self.text_width(a + b, tracking),
            self.text_width(b, tracking) <= self.text_width(a + b, tracking),
    {
        self.lemma_sums_concat(a, b, 0);
        self.lemma_advance_sum_nonneg(a, 0);
        self.lemma_advance_sum_nonneg(b, 0);
        self.lemma_text_width_le(a, a + b, tracking);
        self.lemma_text_width_le(b, a + b, tracking);
    }

    /// With non-negative tracking, dropping a character never makes a text
    /// wider.
    pub proof fn lemma_text_width_remove_no_wider(&self, s: Seq<char>, k: int, tracking: int)
        requires
            tracking >= 0,
            0 <= k < s.len(),
        ensures
            self.text_width(s.remove(k), tracking) <= self.text_width(s, tracking),
    {
        self.lemma_sums_remove(s, k, 0);
        self.lemma_text_width_le(s.remove(k), s, tracking);
    }

    /// `p` is a subsequence of `s`: `p` is what is left of `s` after dropping
    /// some of its characters, the rest keeping their order.
    pub open spec fn is_subsequence(p: Seq<char>, s: Seq<char>) -> bool
        decreases s.len(),
    {
        if s.len() == 0 {
            p.len() == 0
        } else if p.len() > 0 && p.last() == s.last() {
            Self::is_subsequence(p.drop_last(), s.drop_last())
        } else {
            Self::is_subsequence(p, s.drop_last())
        }
    }

    /// A subsequence has no more glyph width and no more glyphs than the text.
    proof fn lemma_subsequence_sums(&self, p: Seq<char>, s: Seq<char>)
        requires
            Self::is_subsequence(p, s),
        ensures
            self.advance_sum(p, 0) <= self.advance_sum(s, 0),
            self.glyph_count(p) <= self.glyph_count(s),
        decreases s.len(),
    {
        if s.len() == 0 {
            assert(p.len() == 0);
        } else if p.len() > 0 && p.last() == s.last() {
            self.lemma_subsequence_sums(p.drop_last(), s.drop_last());
        } else {
            self.lemma_subsequence_sums(p, s.drop_last());
            self.lemma_advance_sum_nonneg(s, 0);
            let w = self.glyph_advance(s.last(), 0);
            assert(w >= 0);
        }
    }

    /// With non-negative tracking no subsequence of a text (a prefix, a
    /// suffix, the text with some characters dropped) measures wider than the
    /// text.
    pub proof fn lemma_text_width_subsequence_no_wider(&self, p: Seq<char>, s: Seq<char>, tracking: int)
        requires
            tracking >= 0,
            Self::is_subsequence(p, s),
        ensures
            self.text_width(p, tracking) <= self.text_width(s, tracking),
    {
        self.lemma_subsequence_sums(p, s);
        self.lemma_text_width_le(p, s, tracking);
    }

    /// A single character measures as wide as the glyph that the lookup table
    /// holds for its code, whatever the tracking, or nothing when its code lies
    /// outside the font's range or past the end of the table.
    pub proof fn lemma_text_width_of_one_char(&self, c: char, tracking: int)
        ensures
            self.text_width(seq![c], tracking) == if self.ascii_begin <= c as u32 <= self.ascii_end
                && (c as u32 - self.ascii_begin) < self.lookup_table@.len() {
                self.lookup_table@[c as u32 - self.ascii_begin].width as int
            } else {
                0
            },
    {
        let s = seq![c];
        assert(s.drop_last() =~= Seq::<char>::empty());
        assert(s.last() == c);
        assert(self.advance_sum(s.drop_last(), tracking) == 0);
        assert(self.glyph_count(s.drop_last()) == 0);
    }

    /// Measure the pixel width of a text string.
    ///
    /// Returns the total width including any unsupported characters (which contribute 0 width)
    /// and the specified tracking value.
    pub fn measure_str(&self, text: &str, tracking: i32) -> (r: u32)
        requires
            self.measure_fits(text@, tracking as int),
        ensures
            r == self.text_width(text@, tracking as int),
            r <= i32::MAX,
    {
        broadcast use vstd::string::axiom_spec_iter;

        let mut total_width: i32 = 0;
        let mut count: i32 = 0;
        for c in it: text.chars()
            invariant
                it.seq() == text@,
                self.measure_fits(text@, tracking as int),
                total_width == self.advance_sum(text@.take(it.index()), tracking as int),
                count == self.glyph_count(text@.take(it.index())),
        {
            let ghost i = it.index();
            proof {
                assert(text@.take(i + 1).drop_last() =~= text@.take(i));
                assert(text@.take(i + 1).last() == text@[i]);
                self.lemma_glyph_count_prefix(text@, i + 1);
                assert(i32::MIN <= self.advance_sum(text@.take(i + 1), tracking as int) <= i32::MAX);
            }
            if let Some(entry) = self.get_glyph(c) {
                assert(self.glyph_of(text@[i]) == Some(*entry));
                total_width += entry.width as i32 + tracking;
                count += 1;
            }
        }
        assert(text@.take(text@.len() as int) =~= text@);

        if count > 0 {
            if tracking > 0 {
                proof {
                    self.lemma_advance_sum_nonneg(text@, tracking as int);
                }
            }
            total_width -= tracking;
        }

        if total_width > 0 {
            total_width as u32
        } else {
            0
        }
    }
}

/// Types that can be positioned by an anchor point.
pub trait WithAnchor: Sized {
    /// Set the anchor point for positioning this object.
    fn with_anchor(self, anchor: Anchor) -> Self;
}

/// A drawable text string with configurable positioning and styling.
pub struct Text<'a, C> {
    text: &'a str,
    position: Point,
    font: &'a Font,
    color: C,
    background_color: Option<C>,
    anchor: Anchor,
    tracking: i32,
}

impl<'a, C> Text<'a, C> {
    /// The characters of the string to render.
    pub closed spec fn text_spec(&self) -> Seq<char> {
        self.text@
    }

    /// The position of the anchor point.
    pub closed spec fn position_spec(&self) -> Point {
        self.position
    }

    /// The font to render with.
    pub closed spec fn font_spec(&self) -> &'a Font {
        self.font
    }

    /// The color of the text pixels.
    pub closed spec fn color_spec(&self) -> C {
        self.color
    }

    /// The optional background color.
    pub closed spec fn background_spec(&self) -> Option<C> {
        self.background_color
    }

    /// Which point of the text's bounding box the position refers to.
    pub closed spec fn anchor_spec(&self) -> Anchor {
        self.anchor
    }

    /// Extra pixel spacing between characters.
    pub closed spec fn tracking_spec(&self) -> i32 {
        self.tracking
    }

    /// Create a new text drawable, anchored at its top left corner, with no
    /// background color and no extra spacing between characters.
    pub fn new(text: &'a str, position: Point, font: &'a Font, color: C) -> (r: Self)
        ensures
            r.text_spec() == text@,
            r.position_spec() == position,
            r.font_spec() == font,
            r.color_spec() == color,
            r.background_spec() is None,
            r.anchor_spec() == Anchor::TopLeft,
            r.tracking_spec() == 0,
    {
        Self {
            text,
            position,
            font,
            color,
            background_color: None,
            anchor: Anchor::TopLeft,
            tracking: 0,
        }
    }

    /// Set a background color for the text; everything else stays as it was.
    pub fn with_background_color(self, color: C) -> (r: Self)
        ensures
            r.background_spec() == Some(color),
            r.text_spec() == self.text_spec(),
            r.position_spec() == self.position_spec(),
            r.font_spec() == self.font_spec(),
            r.color_spec() == self.color_spec(),
            r.anchor_spec() == self.anchor_spec(),
            r.tracking_spec() == self.tracking_spec(),
    {
        let mut r = self;
        r.background_color = Some(color);
        r
    }

    /// Set the spacing between characters in pixels (may be negative);
    /// everything else stays as it was.
    pub fn with_tracking(self, tracking: i32) -> (r: Self)
        ensures
            r.tracking_spec() == tracking,
            r.text_spec() == self.text_spec(),
            r.position_spec() == self.position_spec(),
            r.font_spec() == self.font_spec(),
            r.color_spec() == self.color_spec(),
            r.background_spec() == self.background_spec(),
            r.anchor_spec() == self.anchor_spec(),
    {
        let mut r = self;
        r.tracking = tracking;
        r
    }

    /// The string to render.
    pub fn text(&self) -> (r: &'a str)
        ensures
            r@ == self.text_spec(),
    {
        self.text
    }

    /// The position of the anchor point.
    pub fn position(&self) -> (r: Point)
        ensures
            r == self.position_spec(),
    {
        self.position
    }

    /// The font to render with.
    pub fn font(&self) -> (r: &'a Font)
        ensures
            r == self.font_spec(),
    {
        self.font
    }

    /// The color of the text pixels.
    pub fn color(&self) -> (r: &C)
        ensures
            *r == self.color_spec(),
    {
        &self.color
    }

    /// The optional background color.
    pub fn background_color(&self) -> (r: &Option<C>)
        ensures
            *r == self.background_spec(),
    {
        &self.background_color
    }

    /// Which point of the text's bounding box the position refers to.
    pub fn anchor(&self) -> (r: Anchor)
        ensures
            r == self.anchor_spec(),
    {
        self.anchor
    }

    /// Extra pixel spacing between characters.
    pub fn tracking(&self) -> (r: i32)
        ensures
            r == self.tracking_spec(),
    {
        self.tracking
    }

    /// Placing the text at its position stays within the range of `i32`:
    /// measuring it does, and so does moving from the anchor point to the top
    /// left corner of its bounding box.
    pub open spec fn placement_fits(&self) -> bool {
        let font = self.font_spec();
        let s = self.text_spec();
        let t = self.tracking_spec() as int;
        &&& font.measure_fits(s, t)
        &&& anchor_fits(self.position_spec(), font.text_width(s, t), font.max_height as int, self.anchor_spec())
    }

    /// The top left corner of the text's bounding box: the box is as wide as
    /// the measured text and as tall as the font, and its anchor point lies at
    /// the text's position.
    pub open spec fn origin_spec(&self) -> (int, int) {
        let font = self.font_spec();
        let w = font.text_width(self.text_spec(), self.tracking_spec() as int);
        let h = font.max_height as int;
        (
            anchored_left(self.position_spec().x as int, w, self.anchor_spec()),
            anchored_top(self.position_spec().y as int, h, self.anchor_spec()),
        )
    }

    /// The point where rendering of the text starts: the top left corner of
    /// its bounding box.
    pub fn origin(&self) -> (r: Point)
        requires
            self.placement_fits(),
        ensures
            (r.x as int, r.y as int) == self.origin_spec(),
            box_anchor_point(
                r.x as int,
                r.y as int,
                self.font_spec().text_width(self.text_spec(), self.tracking_spec() as int),
                self.font_spec().max_height as int,
                self.anchor_spec(),
            ) == (self.position_spec().x as int, self.position_spec().y as int),
    {
        let text_width = self.font.measure_str(self.text, self.tracking) as i32;
        let text_height = self.font.max_height as i32;
        anchored_origin(self.position, text_width, text_height, self.anchor)
    }

    /// Whether the text can be placed without leaving the range of `i32`.
    pub fn can_place(&self) -> (r: bool)
        ensures
            r == self.placement_fits(),
    {
        if !self.font.can_measure(self.text, self.tracking) {
            return false;
        }
        let text_width = self.font.measure_str(self.text, self.tracking) as i32;
        can_anchor(self.position, text_width, self.font.max_height as i32, self.anchor)
    }
}

impl<'a, C> WithAnchor for Text<'a, C> {
    /// Set the anchor point; everything else stays as it was.
    fn with_anchor(self, anchor: Anchor) -> (r: Self)
        ensures
            r.anchor_spec() == anchor,
            r.text_spec() == self.text_spec(),
            r.position_spec() == self.position_spec(),
            r.font_spec() == self.font_spec(),
            r.color_spec() == self.color_spec(),
            r.background_spec() == self.background_spec(),
            r.tracking_spec() == self.tracking_spec(),
    {
        let mut r = self;
        r.anchor = anchor;
        r
    }
}

/// A single drawable character with configurable positioning.
pub struct Character<'a, C> {
    ch: char,
    position: Point,
    font: &'a Font,
    color: C,
    background_color: Option<C>,
    anchor: Anchor,
}

impl<'a, C> Character<'a, C> {
    /// The character to render.
    pub closed spec fn ch_spec(&self) -> char {
        self.ch
    }

    /// The position of the anchor point.
    pub closed spec fn position_spec(&self) -> Point {
        self.position
    }

    /// The font to render with.
    pub closed spec fn font_spec(&self) -> &'a Font {
        self.font
    }

    /// The color of the character's pixels.
    pub closed spec fn color_spec(&self) -> C {
        self.color
    }

    /// The optional background color.
    pub closed spec fn background_spec(&self) -> Option<C> {
        self.background_color
    }

    /// Which point of the character's bounding box the position refers to.
    pub closed spec fn anchor_spec(&self) -> Anchor {
        self.anchor
    }

    /// Create a new character drawable, anchored at its top left corner, with
    /// no background color.
    ///
    /// If the character is not supported by the font, it will simply not render.
    pub fn new(ch: char, position: Point, font: &'a Font, color: C) -> (r: Self)
        ensures
            r.ch_spec() == ch,
            r.position_spec() == position,
            r.font_spec() == font,
            r.color_spec() == color,
            r.background_spec() is None,
            r.anchor_spec() == Anchor::TopLeft,
    {
        Self { ch, position, font, color, background_color: None, anchor: Anchor::TopLeft }
    }

    /// Set a background color for the character; everything else stays as it was.
    pub fn with_background_color(self, color: C) -> (r: Self)
        ensures
            r.background_spec() == Some(color),
            r.ch_spec() == self.ch_spec(),
            r.position_spec() == self.position_spec(),
            r.font_spec() == self.font_spec(),
            r.color_spec() == self.color_spec(),
            r.anchor_spec() == self.anchor_spec(),
    {
        let mut r = self;
        r.background_color = Some(color);
        r
    }

    /// The character to render.
    pub fn ch(&self) -> (r: char)
        ensures
            r == self.ch_spec(),
    {
        self.ch
    }

    /// The position of the anchor point.
    pub fn position(&self) -> (r: Point)
        ensures
            r == self.position_spec(),
    {
        self.position
    }

    /// The font to render with.
    pub fn font(&self) -> (r: &'a Font)
        ensures
            r == self.font_spec(),
    {
        self.font
    }

    /// The color of the character's pixels.
    pub fn color(&self) -> (r: &C)
        ensures
            *r == self.color_spec(),
    {
        &self.color
    }

    /// The optional background color.
    pub fn background_color(&self) -> (r: &Option<C>)
        ensures
            *r == self.background_spec(),
    {
        &self.background_color
    }

    /// Which point of the character's bounding box the position refers to.
    pub fn anchor(&self) -> (r: Anchor)
        ensures
            r == self.anchor_spec(),
    {
        self.anchor
    }

    /// Placing a supported character at its position stays within the range of `i32`.
    pub open spec fn placement_fits(&self) -> bool {
        let font = self.font_spec();
        font.glyph_of(self.ch_spec()) matches Some(e) ==> anchor_fits(
            self.position_spec(),
            e.width as int,
            font.max_height as int,
            self.anchor_spec(),
        )
    }

    /// The top left corner of the bounding box of the character's glyph `e`:
    /// the box is as wide as the glyph and as tall as the font, and its anchor
    /// point lies at the character's position.
    pub open spec fn origin_spec(&self, e: GlyphEntry) -> (int, int) {
        (
            anchored_left(self.position_spec().x as int, e.width as int, self.anchor_spec()),
            anchored_top(
                self.position_spec().y as int,
                self.font_spec().max_height as int,
                self.anchor_spec(),
            ),
        )
    }

    /// The point where rendering of the character starts, or `None` when the
    /// font has no glyph for it (and nothing is rendered).
    pub fn origin(&self) -> (r: Option<Point>)
        requires
            self.placement_fits(),
        ensures
            r is None <==> self.font_spec().glyph_of(self.ch_spec()) is None,
            r matches Some(p) ==> (p.x as int, p.y as int) == self.origin_spec(
                self.font_spec().glyph_of(self.ch_spec())->0,
            ),
            r matches Some(p) ==> box_anchor_point(
                p.x as int,
                p.y as int,
                self.font_spec().glyph_of(self.ch_spec())->0.width as int,
                self.font_spec().max_height as int,
                self.anchor_spec(),
            ) == (self.position_spec().x as int, self.position_spec().y as int),
    {
        match self.font.get_glyph(self.ch) {
            Some(entry) => {
                let char_width = entry.width as i32;
                let char_height = self.font.max_height as i32;
                Some(anchored_origin(self.position, char_width, char_height, self.anchor))
            },
            None => None,
        }
    }

    /// Whether the character can be placed without leaving the range of `i32`.
    pub fn can_place(&self) -> (r: bool)
        ensures
            r == self.placement_fits(),
    {
        match self.font.get_glyph(self.ch) {
            Some(entry) => can_anchor(
                self.position,
                entry.width as i32,
                self.font.max_height as i32,
                self.anchor,
            ),
            None => true,
        }
    }
}

impl<'a, C> WithAnchor for Character<'a, C> {
    /// Set the anchor point; everything else stays as it was.
    fn with_anchor(self, anchor: Anchor) -> (r: Self)
        ensures
            r.anchor_spec() == anchor,
            r.ch_spec() == self.ch_spec(),
            r.position_spec() == self.position_spec(),
            r.font_spec() == self.font_spec(),
            r.color_spec() == self.color_spec(),
            r.background_spec() == self.background_spec(),
    {
        let mut r = self;
        r.anchor = anchor;
        r
    }
}

} // verus!
