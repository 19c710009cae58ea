//! glyph metrics and text layout over rasterized glyphs.
//!
//! layout: advances are whole pixels, text is drawn from the
//! top of the line (the renderer adds the ascent to find the baseline),
//! tabs produce no pixels and advance by the font's current tab advance.
//! rasterizing glyphs is the font loader's job; this module only lays out
//! what it produced.

use vstd::prelude::*;

use crate::renderer::{Rect, advance_at, mask_rows, pen_at, sat_add, sat_i32, sat_sub};

verus! {

broadcast use vstd::string::axiom_spec_iter;

/// the chars of `text`, in order
pub fn chars_of(text: &str) -> (v: Vec<char>)
    ensures
        v@ == text@,
{
    let mut v: Vec<char> = Vec::new();
    for c in it: text.chars()
        invariant
            v@ == it.seq().take(it.index() as int),
            it.seq() == text@,
    {
        v.push(c);
    }
    v
}

/// a rasterized glyph: its advance, the offset of its mask from the pen
/// (left) and from the baseline (top, upward), the mask's width, and the
/// alpha mask itself, row-major
#[derive(Clone, Debug)]
pub struct Glyph {
    pub advance: i32,
    pub left: i32,
    pub top: i32,
    pub width: i32,
    pub mask: Vec<u8>,
}

/// the exact sum of the advances of the first k chars
pub open spec fn raw_width(text: Seq<char>, glyphs: Seq<Glyph>, tab: i32, k: nat) -> int
    decreases k,
{
    if k == 0 {
        0
    } else {
        raw_width(text, glyphs, tab, (k - 1) as nat) + advance_at(text, glyphs, tab, k - 1)
    }
}

/// width of a line in pixels, honoring the tab advance: the exact sum of
/// the advances, saturated into the i32 range once at the end
pub fn width_of(text: &[char], glyphs: &[Glyph], tab_advance: i32) -> (w: i32)
    requires
        glyphs@.len() == text@.len(),
    ensures
        w == sat_i32(raw_width(text@, glyphs@, tab_advance, text@.len())),
{
    let mut x: i128 = 0;
    let mut k: usize = 0;
    while k < text.len()
        invariant
            glyphs@.len() == text@.len(),
            0 <= k <= text@.len(),
            x == raw_width(text@, glyphs@, tab_advance, k as nat),
            -0x8000_0000 * k <= x <= 0x7fff_ffff * k,
        decreases text@.len() - k,
    {
        if text[k] == '\t' {
            x = x + tab_advance as i128;
        } else {
            x = x + glyphs[k].advance as i128;
        }
        k = k + 1;
    }
    if x < i32::MIN as i128 {
        i32::MIN
    } else if x > i32::MAX as i128 {
        i32::MAX
    } else {
        x as i32
    }
}

/// where the k-th glyph's mask lands relative to a line drawn at (0, 0),
/// as a rect: offset from the pen by its placement, below the baseline
pub open spec fn glyph_box(text: Seq<char>, glyphs: Seq<Glyph>, ascent: i32, tab: i32, k: int) -> Rect {
    let g = glyphs[k];
    Rect {
        x: sat_i32(pen_at(text, glyphs, tab, 0, k as nat) + g.left),
        y: sat_i32(ascent - g.top),
        width: g.width,
        height: mask_rows(g.mask@.len() as int, g.width as int) as i32,
    }
}

/// whether the k-th char leaves any ink: not a tab, and a mask with rows
pub open spec fn inks(text: Seq<char>, glyphs: Seq<Glyph>, ascent: i32, tab: i32, k: int) -> bool {
    text[k] != '\t' && !glyph_box(text, glyphs, ascent, tab, k).spec_is_empty()
}

/// the union of the ink of the first k chars of a line drawn at (0, 0),
/// none when nothing among them inks
pub open spec fn ink_box(text: Seq<char>, glyphs: Seq<Glyph>, ascent: i32, tab: i32, k: nat) -> Option<Rect>
    decreases k,
{
    if k == 0 {
        None
    } else {
        let prev = ink_box(text, glyphs, ascent, tab, (k - 1) as nat);
        if inks(text, glyphs, ascent, tab, k - 1) {
            let b = glyph_box(text, glyphs, ascent, tab, k - 1);
            match prev {
                Some(p) => Some(p.spec_merge(b)),
                None => Some(b),
            }
        } else {
            prev
        }
    }
}

/// the box, relative to the line's top-left corner, that covers every
/// pixel the glyphs of `text` can ink; glyphs may escape their advance and
/// line box (nerd font icons do), so this can be wider than the metrics
pub fn ink_box_of(text: &[char], glyphs: &[Glyph], ascent: i32, tab_advance: i32) -> (res: Option<Rect>)
    requires
        glyphs@.len() == text@.len(),
    ensures
        res == ink_box(text@, glyphs@, ascent, tab_advance, text@.len()),
{
    let mut pen: i32 = 0;
    let mut acc: Option<Rect> = None;
    let mut k: usize = 0;
    while k < text.len()
        invariant
            glyphs@.len() == text@.len(),
            0 <= k <= text@.len(),
            pen == pen_at(text@, glyphs@, tab_advance, 0, k as nat),
            acc == ink_box(text@, glyphs@, ascent, tab_advance, k as nat),
        decreases text@.len() - k,
    {
        if text[k] == '\t' {
            pen = sat_add(pen, tab_advance);
        } else {
            let g = &glyphs[k];
            let rows = mask_rows_exec(g.mask.len(), g.width);
            let b = Rect::new(sat_add(pen, g.left), sat_sub(ascent, g.top), g.width, rows);
            if !b.is_empty() {
                acc = match acc {
                    Some(p) => Some(p.merge(b)),
                    None => Some(b),
                };
            }
            pen = sat_add(pen, g.advance);
        }
        k = k + 1;
    }
    acc
}

/// the rows of a mask, as `mask_rows` defines them
pub fn mask_rows_exec(len: usize, mw: i32) -> (rows: i32)
    ensures
        rows == mask_rows(len as int, mw as int),
{
    let li = #[verifier::truncate] (len as i32);
    if li <= 0 || mw <= 0 {
        0
    } else {
        (li as u32 / mw as u32) as i32
    }
}

/// what the draw-command cache needs of a font: an identity that tells
/// fonts apart (two fonts never share one), the line height, the ascent
/// and the current tab advance
#[derive(Copy, Clone, PartialEq, Eq, Debug, Structural)]
pub struct FontMetrics {
    pub id: u64,
    pub height: i32,
    pub ascent: i32,
    pub tab_advance: i32,
}

} // verus!
