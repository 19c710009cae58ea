//! software renderer: fills rects and blits glyph masks and images into a
//! cpu framebuffer. pixel format is 0x00rrggbb.
//!
//! all coordinate math is done in i64 so arbitrary rects -- even ones
//! sitting at the edges of the i32 range -- clip safely instead of
//! overflowing.

use vstd::prelude::*;

use crate::font::Glyph;
use crate::image::{Image, ImageView};

verus! {

/// a straight-alpha rgba color
#[derive(Copy, Clone, PartialEq, Eq, Debug, Structural)]
pub struct Color {
    pub r: u8,
    pub g: u8,
    pub b: u8,
    pub a: u8,
}

impl Default for Color {
    /// transparent black
    fn default() -> (c: Color)
        ensures
            c == (Color { r: 0, g: 0, b: 0, a: 0 }),
    {
        Color { r: 0, g: 0, b: 0, a: 0 }
    }
}

#[derive(Copy, Clone, PartialEq, Eq, Debug, Structural)]
pub struct Rect {
    pub x: i32,
    pub y: i32,
    pub width: i32,
    pub height: i32,
}

impl Default for Rect {
    /// the empty rect at the origin
    fn default() -> (r: Rect)
        ensures
            r == (Rect { x: 0, y: 0, width: 0, height: 0 }),
    {
        Rect { x: 0, y: 0, width: 0, height: 0 }
    }
}

pub open spec fn min_int(a: int, b: int) -> int {
    if a <= b { a } else { b }
}

pub open spec fn max_int(a: int, b: int) -> int {
    if a >= b { a } else { b }
}

impl Rect {
    /// right edge, exclusive, as a mathematical integer
    pub open spec fn x2(self) -> int {
        self.x + self.width
    }

    /// bottom edge, exclusive
    pub open spec fn y2(self) -> int {
        self.y + self.height
    }

    pub open spec fn spec_is_empty(self) -> bool {
        self.width <= 0 || self.height <= 0
    }

    /// whether the pixel (px, py) lies inside the rect
    pub open spec fn contains(self, px: int, py: int) -> bool {
        self.x <= px < self.x2() && self.y <= py < self.y2()
    }

    /// closed-interval overlap: touching edges count
    pub open spec fn spec_overlaps(self, b: Rect) -> bool {
        b.x2() >= self.x && b.x <= self.x2() && b.y2() >= self.y && b.y <= self.y2()
    }

    pub open spec fn spec_intersect(self, b: Rect) -> Rect {
        let x = max_int(self.x as int, b.x as int);
        let y = max_int(self.y as int, b.y as int);
        let w = max_int(min_int(self.x2(), b.x2()) - x, 0);
        let h = max_int(min_int(self.y2(), b.y2()) - y, 0);
        Rect { x: x as i32, y: y as i32, width: w as i32, height: h as i32 }
    }

    pub open spec fn spec_merge(self, b: Rect) -> Rect {
        let x = min_int(self.x as int, b.x as int);
        let y = min_int(self.y as int, b.y as int);
        let w = min_int(max_int(self.x2(), b.x2()) - x, i32::MAX as int);
        let h = min_int(max_int(self.y2(), b.y2()) - y, i32::MAX as int);
        Rect { x: x as i32, y: y as i32, width: w as i32, height: h as i32 }
    }

    pub fn new(x: i32, y: i32, width: i32, height: i32) -> (r: Rect)
        ensures
            r == (Rect { x, y, width, height }),
    {
        Rect { x, y, width, height }
    }

    /// touching edges count as overlapping; the rencache relies on this to
    /// merge adjacent dirty regions
    pub fn overlaps(self, b: Rect) -> (res: bool)
        ensures
            res == self.spec_overlaps(b),
    {
        let (ax, ay, ax2, ay2) = self.bounds();
        let (bx, by, bx2, by2) = b.bounds();
        bx2 >= ax && bx <= ax2 && by2 >= ay && by <= ay2
    }

    pub fn intersect(self, b: Rect) -> (r: Rect)
        ensures
            r == self.spec_intersect(b),
            r.width >= 0,
            r.height >= 0,
    {
        let (ax, ay, ax2, ay2) = self.bounds();
        let (bx, by, bx2, by2) = b.bounds();
        let x = max_i64(ax, bx);
        let y = max_i64(ay, by);
        let w = clamp_i64(min_i64(ax2, bx2) - x, 0, i32::MAX as i64);
        let h = clamp_i64(min_i64(ay2, by2) - y, 0, i32::MAX as i64);
        Rect::new(x as i32, y as i32, w as i32, h as i32)
    }

    pub fn merge(self, b: Rect) -> (r: Rect)
        ensures
            r == self.spec_merge(b),
    {
        let (ax, ay, ax2, ay2) = self.bounds();
        let (bx, by, bx2, by2) = b.bounds();
        let x = min_i64(ax, bx);
        let y = min_i64(ay, by);
        let w = min_i64(max_i64(ax2, bx2) - x, i32::MAX as i64);
        let h = min_i64(max_i64(ay2, by2) - y, i32::MAX as i64);
        Rect::new(x as i32, y as i32, w as i32, h as i32)
    }

    pub fn is_empty(self) -> (res: bool)
        ensures
            res == self.spec_is_empty(),
    {
        self.width <= 0 || self.height <= 0
    }

    /// corners as (x1, y1, x2, y2) in i64, safe against i32 overflow
    fn bounds(self) -> (res: (i64, i64, i64, i64))
        ensures
            res == (self.x as i64, self.y as i64, self.x2() as i64, self.y2() as i64),
    {
        let (x, y) = (self.x as i64, self.y as i64);
        (x, y, x + self.width as i64, y + self.height as i64)
    }
}

fn min_i64(a: i64, b: i64) -> (r: i64)
    ensures
        r == min_int(a as int, b as int),
{
    if a <= b { a } else { b }
}

fn max_i64(a: i64, b: i64) -> (r: i64)
    ensures
        r == max_int(a as int, b as int),
{
    if a >= b { a } else { b }
}

fn clamp_i64(v: i64, lo: i64, hi: i64) -> (r: i64)
    requires
        lo <= hi,
    ensures
        r == if v < lo { lo as int } else if v > hi { hi as int } else { v as int },
{
    if v < lo { lo } else if v > hi { hi } else { v }
}

/// The intersection of two rects lies inside both of them: every pixel it
/// contains is contained by each operand, and conversely.
pub proof fn lemma_intersect_is_common_part(a: Rect, b: Rect, px: int, py: int)
    ensures
        a.spec_intersect(b).contains(px, py) <==> (a.contains(px, py) && b.contains(px, py)),
{
}

/// Intersection does not depend on the order of its operands.
pub proof fn lemma_intersect_commutes(a: Rect, b: Rect)
    ensures
        a.spec_intersect(b) == b.spec_intersect(a),
{
}

/// Overlap is symmetric.
pub proof fn lemma_overlaps_symmetric(a: Rect, b: Rect)
    ensures
        a.spec_overlaps(b) == b.spec_overlaps(a),
{
}

/// A merged rect covers every pixel of both operands, as long as the union's
/// extent fits in an i32 (beyond that the width saturates).
pub proof fn lemma_merge_covers(a: Rect, b: Rect, px: int, py: int)
    requires
        max_int(a.x2(), b.x2()) - min_int(a.x as int, b.x as int) <= i32::MAX,
        max_int(a.y2(), b.y2()) - min_int(a.y as int, b.y as int) <= i32::MAX,
        a.contains(px, py) || b.contains(px, py),
    ensures
        a.spec_merge(b).contains(px, py),
{
}


// ---------------------------------------------------------------------------
// pixel math

/// (a * b) / 255, rounded to nearest, computed the way the blitter does it
pub open spec fn mul255_spec(a: int, b: int) -> int {
    ((a * b + 128) * 257) / 65536
}

/// a packed 0x00rrggbb pixel
pub open spec fn pack_spec(r: int, g: int, b: int) -> u32 {
    (r * 65536 + g * 256 + b) as u32
}

pub open spec fn red_of(p: u32) -> int {
    (p as int / 65536) % 256
}

pub open spec fn green_of(p: u32) -> int {
    (p as int / 256) % 256
}

pub open spec fn blue_of(p: u32) -> int {
    p as int % 256
}

/// one channel of a source-over blend: source weighted by alpha, the
/// destination by its complement, each product rounded on its own
pub open spec fn blend_channel(s: int, d: int, a: int) -> int {
    mul255_spec(s, a) + mul255_spec(d, 255 - a)
}

/// `src` at alpha `a` composited over the pixel `dst`
pub open spec fn blend_spec(dst: u32, r: u8, g: u8, b: u8, a: u8) -> u32 {
    pack_spec(
        blend_channel(r as int, red_of(dst), a as int),
        blend_channel(g as int, green_of(dst), a as int),
        blend_channel(b as int, blue_of(dst), a as int),
    )
}

proof fn lemma_mul255_fits(x: u32)
    by (bit_vector)
    requires
        x <= 65025,
    ensures
        (((x + 128) * 257) as u32) >> 16 == ((x + 128) * 257) / 65536,
        ((x + 128) * 257) / 65536 < 256,
        ((x + 128) * 257) / 65536 == (2 * x + 255) / 510,
{
}

proof fn lemma_product_bound(a: int, b: int)
    by (nonlinear_arith)
    requires
        0 <= a <= 255,
        0 <= b <= 255,
    ensures
        0 <= a * b <= 65025,
        a * b <= 255 * b,
{
}

/// The blitter's product is the exact quotient (a * b) / 255 rounded to the
/// nearest integer (halves round up); a plain `>> 8` would darken every blend.
pub proof fn lemma_mul255_rounds(a: int, b: int)
    requires
        0 <= a <= 255,
        0 <= b <= 255,
    ensures
        mul255_spec(a, b) == (2 * (a * b) + 255) / 510,
        0 <= mul255_spec(a, b) <= 255,
{
    lemma_product_bound(a, b);
    let x = (a * b) as u32;
    lemma_mul255_fits(x);
}

/// Scaling by full alpha is the identity and by zero alpha gives nothing.
pub proof fn lemma_mul255_identities(a: int)
    requires
        0 <= a <= 255,
    ensures
        mul255_spec(a, 255) == a,
        mul255_spec(255, a) == a,
        mul255_spec(a, 0) == 0,
        mul255_spec(0, a) == 0,
{
    lemma_mul255_rounds(a, 255);
    lemma_mul255_rounds(255, a);
    lemma_mul255_rounds(a, 0);
    lemma_mul255_rounds(0, a);
    assert(a * 255 == 255 * a) by (nonlinear_arith);
    assert((2 * (a * 255) + 255) / 510 == a) by (nonlinear_arith)
        requires 0 <= a <= 255;
}

/// A blended channel never exceeds 255: the exact sum
/// (a*s + (255-a)*d) / 255 is at most 255, and each rounded half sits under
/// its exact value plus one half, so the pair cannot carry past 255.
pub proof fn lemma_blend_channel_fits(s: int, d: int, a: int)
    requires
        0 <= s <= 255,
        0 <= d <= 255,
        0 <= a <= 255,
    ensures
        0 <= blend_channel(s, d, a) <= 255,
{
    lemma_mul255_rounds(s, a);
    lemma_mul255_rounds(d, 255 - a);
    let x1 = s * a;
    let x2 = d * (255 - a);
    assert(x1 <= 255 * a) by (nonlinear_arith)
        requires 0 <= s <= 255, 0 <= a, x1 == s * a;
    assert(x2 <= 255 * (255 - a)) by (nonlinear_arith)
        requires 0 <= d <= 255, 0 <= 255 - a, x2 == d * (255 - a);
    let m1 = (2 * x1 + 255) / 510;
    let m2 = (2 * x2 + 255) / 510;
    assert(510 * m1 <= 2 * x1 + 254);
    assert(510 * m2 <= 2 * x2 + 254);
}

/// Opaque blending replaces the destination with the source color.
pub proof fn lemma_blend_opaque(dst: u32, r: u8, g: u8, b: u8)
    ensures
        blend_spec(dst, r, g, b, 255) == pack_spec(r as int, g as int, b as int),
{
    lemma_mul255_identities(r as int);
    lemma_mul255_identities(g as int);
    lemma_mul255_identities(b as int);
    lemma_mul255_identities(red_of(dst));
    lemma_mul255_identities(green_of(dst));
    lemma_mul255_identities(blue_of(dst));
}

/// Blending works channel by channel: each channel of the result is the
/// source's channel weighted by alpha plus the same channel of the old pixel
/// weighted by the rest of the alpha, each product (x * y) / 255 rounded to
/// the nearest integer on its own.
pub proof fn lemma_blend_mixes_each_channel(dst: u32, r: u8, g: u8, b: u8, a: u8)
    ensures
        red_of(blend_spec(dst, r, g, b, a)) == (2 * (r * a) + 255) / 510 + (2 * (red_of(dst) * (255 - a))
            + 255) / 510,
        green_of(blend_spec(dst, r, g, b, a)) == (2 * (g * a) + 255) / 510 + (2 * (green_of(dst) * (255
            - a)) + 255) / 510,
        blue_of(blend_spec(dst, r, g, b, a)) == (2 * (b * a) + 255) / 510 + (2 * (blue_of(dst) * (255 - a))
            + 255) / 510,
{
    let cr = blend_channel(r as int, red_of(dst), a as int);
    let cg = blend_channel(g as int, green_of(dst), a as int);
    let cb = blend_channel(b as int, blue_of(dst), a as int);
    lemma_blend_channel_fits(r as int, red_of(dst), a as int);
    lemma_blend_channel_fits(g as int, green_of(dst), a as int);
    lemma_blend_channel_fits(b as int, blue_of(dst), a as int);
    lemma_mul255_rounds(r as int, a as int);
    lemma_mul255_rounds(g as int, a as int);
    lemma_mul255_rounds(b as int, a as int);
    lemma_mul255_rounds(red_of(dst), 255 - a);
    lemma_mul255_rounds(green_of(dst), 255 - a);
    lemma_mul255_rounds(blue_of(dst), 255 - a);
    lemma_pack_bits(cr as u32, cg as u32, cb as u32);
}

/// exact (a * b) / 255 with rounding; a plain `>> 8` would slightly
/// darken every blend
fn mul255(a: u8, b: u8) -> (r: u8)
    ensures
        r as int == mul255_spec(a as int, b as int),
{
    proof {
        lemma_product_bound(a as int, b as int);
    }
    let x = a as u32 * b as u32;
    proof {
        lemma_mul255_fits(x);
    }
    (((x + 128) * 257) >> 16) as u8
}

proof fn lemma_pack_bits(r: u32, g: u32, b: u32)
    by (bit_vector)
    requires
        r < 256,
        g < 256,
        b < 256,
    ensures
        (r << 16) | (g << 8) | b == r * 65536 + g * 256 + b,
        ((r * 65536 + g * 256 + b) / 65536) % 256 == r,
        ((r * 65536 + g * 256 + b) / 256) % 256 == g,
        (r * 65536 + g * 256 + b) % 256 == b,
        r * 65536 + g * 256 + b < 0x1_0000_0000,
{
}

fn pack(r: u8, g: u8, b: u8) -> (p: u32)
    ensures
        p == pack_spec(r as int, g as int, b as int),
        red_of(p) == r,
        green_of(p) == g,
        blue_of(p) == b,
{
    proof {
        lemma_pack_bits(r as u32, g as u32, b as u32);
    }
    ((r as u32) << 16) | ((g as u32) << 8) | b as u32
}

proof fn lemma_channels(p: u32)
    by (bit_vector)
    ensures
        (p >> 16) as u8 == (p / 65536) % 256,
        (p >> 8) as u8 == (p / 256) % 256,
        p as u8 == p % 256,
{
}

fn blend(dst: u32, r: u8, g: u8, b: u8, a: u8) -> (p: u32)
    ensures
        p == blend_spec(dst, r, g, b, a),
{
    proof {
        lemma_channels(dst);
        lemma_blend_channel_fits(r as int, red_of(dst), a as int);
        lemma_blend_channel_fits(g as int, green_of(dst), a as int);
        lemma_blend_channel_fits(b as int, blue_of(dst), a as int);
    }
    let ia = 255 - a;
    let dr = mul255((dst >> 16) as u8, ia);
    let dg = mul255((dst >> 8) as u8, ia);
    let db = mul255(dst as u8, ia);
    pack(mul255(r, a) + dr, mul255(g, a) + dg, mul255(b, a) + db)
}


// ---------------------------------------------------------------------------
// the framebuffer

/// the pixel at column `px`, row `py` of a row-major buffer `width` wide
pub open spec fn pixel_of(pixels: Seq<u32>, width: int, px: int, py: int) -> u32 {
    pixels[py * width + px]
}

/// what a rect fill leaves at one pixel: `color` composited over the old
/// value inside `r`, the old value everywhere else
pub open spec fn rect_paint(old: u32, r: Rect, color: Color, px: int, py: int) -> u32 {
    if r.contains(px, py) {
        blend_spec(old, color.r, color.g, color.b, color.a)
    } else {
        old
    }
}

/// a whole buffer repainted pixel by pixel: `f` maps each old value and its
/// column and row to the new value
pub open spec fn paint_all(old: Seq<u32>, width: int, f: spec_fn(u32, int, int) -> u32) -> Seq<u32> {
    Seq::new(old.len(), |i: int| f(old[i], i % width, i / width))
}


/// the number of whole rows in a mask `len` bytes long and `mw` wide; the
/// length goes through an i32 first, and a length that does not come out
/// positive there has no rows
pub open spec fn mask_rows(len: int, mw: int) -> int {
    let li = (len as i32) as int;
    if li <= 0 || mw <= 0 {
        0
    } else {
        li / mw
    }
}

/// the part of the buffer a mask placed at (gx, gy) can touch
pub open spec fn mask_area(len: int, mw: i32, gx: i32, gy: i32, clip: Rect) -> Rect {
    Rect { x: gx, y: gy, width: mw, height: mask_rows(len, mw as int) as i32 }.spec_intersect(clip)
}

/// what blitting a mask leaves at one pixel: inside the area, `color` at
/// the mask's coverage times the color's alpha, composited over the old
/// value (zero coverage leaves it untouched)
pub open spec fn mask_paint(
    o: u32,
    mask: Seq<u8>,
    mw: int,
    gx: int,
    gy: int,
    area: Rect,
    color: Color,
    px: int,
    py: int,
) -> u32 {
    if area.contains(px, py) {
        let a = mul255_spec(mask[(py - gy) * mw + (px - gx)] as int, color.a as int);
        if a == 0 {
            o
        } else {
            blend_spec(o, color.r, color.g, color.b, a as u8)
        }
    } else {
        o
    }
}

/// the buffer after blitting `mask`, `mw` wide, with its top-left corner at
/// (gx, gy), tinted with `color`
pub open spec fn mask_paint_all(
    old: Seq<u32>,
    width: int,
    clip: Rect,
    mask: Seq<u8>,
    mw: i32,
    gx: i32,
    gy: i32,
    color: Color,
) -> Seq<u32> {
    if color.a == 0 || mask.len() == 0 || mw <= 0 {
        old
    } else {
        paint_all(
            old,
            width,
            |o: u32, px: int, py: int|
                mask_paint(o, mask, mw as int, gx as int, gy as int, mask_area(mask.len() as int, mw, gx, gy, clip), color, px, py),
        )
    }
}

proof fn lemma_truncated_len(n: usize)
    by (bit_vector)
    ensures
        (n as i32) > 0 ==> (n as i32) as usize <= n,
{
}


/// the source pixel that output pixel (px, py) of a `dest`-sized scaled
/// image shows: nearest neighbor, from the pixel's absolute offset in `dest`
pub open spec fn image_source(img: ImageView, dest: Rect, px: int, py: int) -> Color {
    let sx = (px - dest.x) * img.width / (dest.width as int);
    let sy = (py - dest.y) * img.height / (dest.height as int);
    img.pixels[sy * img.width + sx]
}

/// what drawing an image leaves at one pixel: inside `area`, the source
/// pixel tinted by `color` (channels and alpha multiplied) composited over
/// the old value; a pixel whose tinted alpha is zero is skipped
pub open spec fn image_paint(o: u32, img: ImageView, dest: Rect, area: Rect, color: Color, px: int, py: int) -> u32 {
    if area.contains(px, py) {
        let c = image_source(img, dest, px, py);
        let a = mul255_spec(c.a as int, color.a as int);
        if a == 0 {
            o
        } else {
            blend_spec(
                o,
                mul255_spec(c.r as int, color.r as int) as u8,
                mul255_spec(c.g as int, color.g as int) as u8,
                mul255_spec(c.b as int, color.b as int) as u8,
                a as u8,
            )
        }
    } else {
        o
    }
}

/// the buffer after drawing `img` scaled into `dest` under `clip`
pub open spec fn image_paint_all(
    old: Seq<u32>,
    width: int,
    clip: Rect,
    img: ImageView,
    dest: Rect,
    color: Color,
) -> Seq<u32> {
    if color.a == 0 || dest.spec_is_empty() {
        old
    } else {
        paint_all(
            old,
            width,
            |o: u32, px: int, py: int| image_paint(o, img, dest, dest.spec_intersect(clip), color, px, py),
        )
    }
}

/// A scaled image drawn under any clip shows, at every pixel the clip
/// covers, exactly what the unclipped image shows there, and leaves every
/// other pixel alone: clipping skips pixels but never shifts the mapping,
/// so an image redrawn in parts is pixel-identical to one drawn whole.
pub proof fn lemma_image_clip_is_a_window(
    old: Seq<u32>,
    width: i32,
    height: i32,
    clip: Rect,
    img: ImageView,
    dest: Rect,
    color: Color,
    i: int,
)
    requires
        width >= 1,
        height >= 1,
        old.len() == width * height,
        0 <= i < old.len(),
    ensures
        image_paint_all(old, width as int, clip, img, dest, color)[i] == if clip.contains(
            i % (width as int),
            i / (width as int),
        ) {
            image_paint_all(old, width as int, Rect { x: 0, y: 0, width, height }, img, dest, color)[i]
        } else {
            old[i]
        },
{
    let w = width as int;
    lemma_coords(w, height as int, i);
    lemma_intersect_is_common_part(dest, clip, i % w, i / w);
    lemma_intersect_is_common_part(dest, Rect { x: 0, y: 0, width, height }, i % w, i / w);
}


/// the buffer after drawing the same image once under each of the first
/// k clips, in order
pub open spec fn image_in_parts(
    old: Seq<u32>,
    width: int,
    clips: Seq<Rect>,
    img: ImageView,
    dest: Rect,
    color: Color,
    k: nat,
) -> Seq<u32>
    decreases k,
{
    if k == 0 {
        old
    } else {
        image_paint_all(image_in_parts(old, width, clips, img, dest, color, (k - 1) as nat), width, clips[k - 1], img, dest, color)
    }
}

/// whether one of the first n clips holds the pixel (px, py)
pub open spec fn in_some_clip(clips: Seq<Rect>, n: int, px: int, py: int) -> bool {
    exists|j: int| 0 <= j < n && (#[trigger] clips[j]).contains(px, py)
}

/// drawing an image works pixel by pixel
proof fn lemma_image_paint_pointwise(a: Seq<u32>, b: Seq<u32>, width: int, clip: Rect, img: ImageView, dest: Rect, color: Color, i: int)
    requires
        a.len() == b.len(),
        0 <= i < a.len(),
        a[i] == b[i],
    ensures
        image_paint_all(a, width, clip, img, dest, color).len() == a.len(),
        image_paint_all(a, width, clip, img, dest, color)[i] == image_paint_all(b, width, clip, img, dest, color)[i],
{
}

proof fn lemma_parts_at(
    old: Seq<u32>,
    width: i32,
    height: i32,
    clips: Seq<Rect>,
    img: ImageView,
    dest: Rect,
    color: Color,
    k: nat,
    i: int,
)
    requires
        width >= 1,
        height >= 1,
        old.len() == width * height,
        0 <= i < old.len(),
        k <= clips.len(),
        forall|j1: int, j2: int, px: int, py: int|
            0 <= j1 < j2 < clips.len() && (#[trigger] clips[j1].contains(px, py)) ==> !(#[trigger] clips[j2].contains(
                px,
                py,
            )),
    ensures
        ({
            let parts = image_in_parts(old, width as int, clips, img, dest, color, k);
            let (px, py) = (i % (width as int), i / (width as int));
            &&& parts.len() == old.len()
            &&& parts[i] == (if in_some_clip(clips, k as int, px, py) {
                image_paint_all(old, width as int, Rect { x: 0, y: 0, width, height }, img, dest, color)[i]
            } else {
                old[i]
            })
        }),
    decreases k,
{
    let (px, py) = (i % (width as int), i / (width as int));
    let screen = Rect { x: 0, y: 0, width, height };
    if k > 0 {
        lemma_parts_at(old, width, height, clips, img, dest, color, (k - 1) as nat, i);
        let prev = image_in_parts(old, width as int, clips, img, dest, color, (k - 1) as nat);
        let c = clips[k - 1];
        lemma_image_clip_is_a_window(prev, width, height, c, img, dest, color, i);
        if c.contains(px, py) {
            if in_some_clip(clips, k - 1, px, py) {
                let j = choose|j: int| 0 <= j < k - 1 && (#[trigger] clips[j]).contains(px, py);
                assert(!clips[k - 1].contains(px, py));
            }
            lemma_image_paint_pointwise(prev, old, width as int, screen, img, dest, color, i);
            assert(in_some_clip(clips, k as int, px, py));
        } else {
            if in_some_clip(clips, k as int, px, py) {
                let j = choose|j: int| 0 <= j < k && (#[trigger] clips[j]).contains(px, py);
                assert(in_some_clip(clips, k - 1, px, py));
            }
            if in_some_clip(clips, k - 1, px, py) {
                let j = choose|j: int| 0 <= j < k - 1 && (#[trigger] clips[j]).contains(px, py);
                assert(in_some_clip(clips, k as int, px, py));
            }
        }
    }
}

/// An image redrawn in parts, under clips that do not overlap and that
/// together cover the screen, leaves exactly the pixels of the image drawn
/// once, whole: each pixel's source depends on its offset in `dest`, never
/// on the clip.
pub proof fn lemma_image_in_parts_is_the_whole(
    old: Seq<u32>,
    width: i32,
    height: i32,
    clips: Seq<Rect>,
    img: ImageView,
    dest: Rect,
    color: Color,
)
    requires
        width >= 1,
        height >= 1,
        old.len() == width * height,
        forall|px: int, py: int| 0 <= px < width && 0 <= py < height ==> in_some_clip(clips, clips.len() as int, px, py),
        forall|j1: int, j2: int, px: int, py: int|
            0 <= j1 < j2 < clips.len() && (#[trigger] clips[j1].contains(px, py)) ==> !(#[trigger] clips[j2].contains(
                px,
                py,
            )),
    ensures
        image_in_parts(old, width as int, clips, img, dest, color, clips.len()) == image_paint_all(
            old,
            width as int,
            Rect { x: 0, y: 0, width, height },
            img,
            dest,
            color,
        ),
{
    let parts = image_in_parts(old, width as int, clips, img, dest, color, clips.len());
    let whole = image_paint_all(old, width as int, Rect { x: 0, y: 0, width, height }, img, dest, color);
    assert forall|i: int| 0 <= i < old.len() implies parts[i] == whole[i] by {
        lemma_coords(width as int, height as int, i);
        lemma_parts_at(old, width, height, clips, img, dest, color, clips.len(), i);
        assert(in_some_clip(clips, clips.len() as int, i % (width as int), i / (width as int)));
    }
    assert(width * height >= 1) by (nonlinear_arith)
        requires width >= 1, height >= 1;
    lemma_parts_at(old, width, height, clips, img, dest, color, clips.len(), 0);
    lemma_image_paint_pointwise(old, old, width as int, Rect { x: 0, y: 0, width, height }, img, dest, color, 0);
    assert(parts =~= whole);
}

/// scaling an offset inside a span of `d` onto a span of `n` stays inside it
proof fn lemma_scale_index(o: int, n: int, d: int)
    requires
        0 <= o < d,
        1 <= n <= i32::MAX,
        d <= i32::MAX,
    ensures
        0 <= o * n < 0x1_0000_0000_0000_0000,
        0 <= o * n / d < n,
{
    assert(0 <= o * n < d * n) by (nonlinear_arith)
        requires 0 <= o < d, 1 <= n;
    assert(d * n <= i32::MAX * i32::MAX) by (nonlinear_arith)
        requires 0 < d <= i32::MAX, 1 <= n <= i32::MAX;
    assert(0 <= o * n / d < n) by (nonlinear_arith)
        requires 0 <= o * n < d * n, d > 0;
}


/// `v` saturated into the i32 range
pub open spec fn sat_i32(v: int) -> i32 {
    if v < i32::MIN {
        i32::MIN
    } else if v > i32::MAX {
        i32::MAX
    } else {
        v as i32
    }
}

/// `i32::saturating_add`
pub fn sat_add(a: i32, b: i32) -> (r: i32)
    ensures
        r == sat_i32(a + b),
{
    let v = a as i64 + b as i64;
    if v < i32::MIN as i64 {
        i32::MIN
    } else if v > i32::MAX as i64 {
        i32::MAX
    } else {
        v as i32
    }
}

/// `i32::saturating_sub`
pub fn sat_sub(a: i32, b: i32) -> (r: i32)
    ensures
        r == sat_i32(a - b),
{
    let v = a as i64 - b as i64;
    if v < i32::MIN as i64 {
        i32::MIN
    } else if v > i32::MAX as i64 {
        i32::MAX
    } else {
        v as i32
    }
}

/// how far the pen moves over the k-th char: the tab advance for a tab,
/// the glyph's own advance otherwise
pub open spec fn advance_at(text: Seq<char>, glyphs: Seq<Glyph>, tab: i32, k: int) -> int {
    if text[k] == '\t' {
        tab as int
    } else {
        glyphs[k].advance as int
    }
}

/// the pen position before the k-th char when drawing starts at x; every
/// step saturates
pub open spec fn pen_at(text: Seq<char>, glyphs: Seq<Glyph>, tab: i32, x: i32, k: nat) -> i32
    decreases k,
{
    if k == 0 {
        x
    } else {
        sat_i32(pen_at(text, glyphs, tab, x, (k - 1) as nat) + advance_at(text, glyphs, tab, k - 1))
    }
}

/// the buffer after the first k chars of a line of text are drawn: each
/// char that is not a tab blits its glyph's mask at the pen, offset by the
/// glyph's placement, below the baseline `ascent` under y
pub open spec fn text_paint(
    old: Seq<u32>,
    width: int,
    clip: Rect,
    text: Seq<char>,
    glyphs: Seq<Glyph>,
    ascent: i32,
    tab: i32,
    x: i32,
    y: i32,
    color: Color,
    k: nat,
) -> Seq<u32>
    decreases k,
{
    if k == 0 {
        old
    } else {
        let prev = text_paint(old, width, clip, text, glyphs, ascent, tab, x, y, color, (k - 1) as nat);
        if text[k - 1] == '\t' {
            prev
        } else {
            let g = glyphs[k - 1];
            let baseline = sat_i32(y + ascent);
            mask_paint_all(
                prev,
                width,
                clip,
                g.mask@,
                g.width,
                sat_i32(pen_at(text, glyphs, tab, x, (k - 1) as nat) + g.left),
                sat_i32(baseline - g.top),
                color,
            )
        }
    }
}

/// the buffer after filling `rect` with `color` under `clip`; a fully
/// transparent color changes nothing
pub open spec fn rect_paint_all(old: Seq<u32>, width: int, clip: Rect, rect: Rect, color: Color) -> Seq<u32> {
    if color.a == 0 {
        old
    } else {
        paint_all(old, width, |o: u32, px: int, py: int| rect_paint(o, rect.spec_intersect(clip), color, px, py))
    }
}

/// A rect fill never writes a pixel outside the clip: every pixel the clip
/// does not cover keeps its old value.
pub proof fn lemma_rect_fill_stays_in_clip(
    old: Seq<u32>,
    width: i32,
    height: i32,
    clip: Rect,
    rect: Rect,
    color: Color,
    i: int,
)
    requires
        width >= 1,
        height >= 1,
        old.len() == width * height,
        0 <= i < old.len(),
        !clip.contains(i % (width as int), i / (width as int)),
    ensures
        rect_paint_all(old, width as int, clip, rect, color)[i] == old[i],
{
    lemma_coords(width as int, height as int, i);
    lemma_intersect_is_common_part(rect, clip, i % (width as int), i / (width as int));
}

pub proof fn lemma_index_in_bounds(w: int, h: int, px: int, py: int)
    requires
        0 <= px < w,
        0 <= py < h,
    ensures
        0 <= py * w + px < w * h,
        py * w + px == px + py * w,
{
    assert(0 <= py * w + px < w * h) by (nonlinear_arith)
        requires 0 <= px < w, 0 <= py < h;
}

pub proof fn lemma_index_injective(w: int, px1: int, py1: int, px2: int, py2: int)
    requires
        0 <= px1 < w,
        0 <= px2 < w,
        0 <= py1,
        0 <= py2,
        py1 * w + px1 == py2 * w + px2,
    ensures
        px1 == px2,
        py1 == py2,
{
    assert(py1 == py2) by (nonlinear_arith)
        requires 0 <= px1 < w, 0 <= px2 < w, 0 <= py1, 0 <= py2, py1 * w + px1 == py2 * w + px2;
}

/// the pixel coordinates of buffer index `i`
pub proof fn lemma_coords(w: int, h: int, i: int)
    requires
        w >= 1,
        0 <= i < w * h,
    ensures
        0 <= i % w < w,
        0 <= i / w < h,
        (i / w) * w + i % w == i,
{
    vstd::arithmetic::div_mod::lemma_fundamental_div_mod(i, w);
    vstd::arithmetic::div_mod::lemma_mod_pos_bound(i, w);
    vstd::arithmetic::div_mod::lemma_div_pos_is_pos(i, w);
    let q = i / w;
    assert(q < h) by (nonlinear_arith)
        requires i == w * q + i % w, 0 <= i % w, i < w * h, w >= 1;
    assert(q * w == w * q) by (nonlinear_arith);
}

/// a buffer known pixel by pixel is the per-index painting of the old one
pub proof fn lemma_pixels_from_coords(
    new: Seq<u32>,
    old: Seq<u32>,
    w: int,
    h: int,
    f: spec_fn(u32, int, int) -> u32,
)
    requires
        w >= 1,
        h >= 1,
        new.len() == w * h,
        old.len() == w * h,
        forall|px: int, py: int|
            0 <= px < w && 0 <= py < h ==> #[trigger] pixel_of(new, w, px, py) == f(
                pixel_of(old, w, px, py),
                px,
                py,
            ),
    ensures
        new == Seq::new(old.len(), |i: int| f(old[i], i % w, i / w)),
{
    assert forall|i: int| 0 <= i < old.len() implies new[i] == f(old[i], i % w, i / w) by {
        lemma_coords(w, h, i);
        assert(pixel_of(new, w, i % w, i / w) == new[i]);
    }
    assert(new =~= Seq::new(old.len(), |i: int| f(old[i], i % w, i / w)));
}

/// writing one pixel's painted value extends the painted region by exactly
/// that pixel
pub proof fn lemma_paint_step(
    before: Seq<u32>,
    after: Seq<u32>,
    old: Seq<u32>,
    w: int,
    h: int,
    cx: int,
    cy: int,
    f: spec_fn(u32, int, int) -> u32,
    done_before: spec_fn(int, int) -> bool,
    done_after: spec_fn(int, int) -> bool,
)
    requires
        w >= 1,
        0 <= cx < w,
        0 <= cy < h,
        before.len() == w * h,
        old.len() == w * h,
        after == before.update(cy * w + cx, f(old[cy * w + cx], cx, cy)),
        forall|px: int, py: int|
            0 <= px < w && 0 <= py < h ==> #[trigger] pixel_of(before, w, px, py) == if done_before(
                px,
                py,
            ) {
                f(pixel_of(old, w, px, py), px, py)
            } else {
                pixel_of(old, w, px, py)
            },
        forall|px: int, py: int| #[trigger]
            done_after(px, py) == (done_before(px, py) || (px == cx && py == cy)),
    ensures
        forall|px: int, py: int|
            0 <= px < w && 0 <= py < h ==> #[trigger] pixel_of(after, w, px, py) == if done_after(
                px,
                py,
            ) {
                f(pixel_of(old, w, px, py), px, py)
            } else {
                pixel_of(old, w, px, py)
            },
{
    lemma_index_in_bounds(w, h, cx, cy);
    assert forall|px: int, py: int| 0 <= px < w && 0 <= py < h implies #[trigger] pixel_of(
        after,
        w,
        px,
        py,
    ) == if done_after(px, py) {
        f(pixel_of(old, w, px, py), px, py)
    } else {
        pixel_of(old, w, px, py)
    } by {
        lemma_index_in_bounds(w, h, px, py);
        assert(done_after(px, py) == (done_before(px, py) || (px == cx && py == cy)));
        if px == cx && py == cy {
        } else {
            if py * w + px == cy * w + cx {
                lemma_index_injective(w, px, py, cx, cy);
            }
            assert(pixel_of(before, w, px, py) == pixel_of(after, w, px, py));
        }
    }
}

/// the clip rect of a framebuffer. only the framebuffer's own methods make
/// one, so outside code can read it (`Framebuffer::clip`) but not choose it
pub struct ClipRect {
    rect: Rect,
}

impl View for ClipRect {
    type V = Rect;

    closed spec fn view(&self) -> Rect {
        self.rect
    }
}

/// a cpu framebuffer: `height` rows of `width` pixels, row-major, plus the
/// clip rect every draw is confined to. the clip is changed through
/// `set_clip`, which keeps it inside the buffer as `wf` demands
pub struct Framebuffer {
    pub pixels: Vec<u32>,
    pub width: i32,
    pub height: i32,
    pub clip: ClipRect,
}

impl Framebuffer {
    /// the current clip rect
    pub open spec fn clip_rect(&self) -> Rect {
        self.clip@
    }

    /// the clip rect that draws are confined to
    pub fn clip(&self) -> (r: Rect)
        ensures
            r == self.clip_rect(),
    {
        self.clip.rect
    }

    /// the whole buffer as a rect
    pub open spec fn screen(&self) -> Rect {
        Rect { x: 0, y: 0, width: self.width, height: self.height }
    }

    /// the buffer holds exactly width * height pixels and the clip lies
    /// inside it
    pub open spec fn wf(&self) -> bool {
        &&& self.width >= 1
        &&& self.height >= 1
        &&& self.pixels@.len() == self.width * self.height
        &&& self.clip_rect().x >= 0
        &&& self.clip_rect().y >= 0
        &&& self.clip_rect().width >= 0
        &&& self.clip_rect().height >= 0
        &&& (self.clip_rect().width == 0 || self.clip_rect().x2() <= self.width)
        &&& (self.clip_rect().height == 0 || self.clip_rect().y2() <= self.height)
    }

    /// a black framebuffer; sizes below one are raised to one. the pixel
    /// count must be addressable
    pub fn new(width: i32, height: i32) -> (fb: Framebuffer)
        requires
            max_int(width as int, 1) * max_int(height as int, 1) <= usize::MAX,
        ensures
            fb.wf(),
            fb.width == max_int(width as int, 1),
            fb.height == max_int(height as int, 1),
            fb.pixels@ == Seq::new((fb.width * fb.height) as nat, |i: int| 0u32),
            fb.clip_rect() == fb.screen(),
    {
        let width = if width < 1 { 1 } else { width };
        let height = if height < 1 { 1 } else { height };
        let n = width as usize * height as usize;
        let pixels = vec![0u32; n];
        let fb = Framebuffer { pixels, width, height, clip: ClipRect { rect: Rect::new(0, 0, width, height) } };
        assert(fb.pixels@ == Seq::new((fb.width * fb.height) as nat, |i: int| 0u32));
        fb
    }

    /// changes the size; a real change clears the buffer to black and resets
    /// the clip, the same size again changes nothing
    pub fn resize(&mut self, width: i32, height: i32)
        requires
            old(self).wf(),
            max_int(width as int, 1) * max_int(height as int, 1) <= usize::MAX,
        ensures
            final(self).wf(),
            final(self).width == max_int(width as int, 1),
            final(self).height == max_int(height as int, 1),
            (final(self).width == old(self).width && final(self).height == old(self).height)
                ==> *final(self) == *old(self),
            !(final(self).width == old(self).width && final(self).height == old(self).height) ==> {
                &&& final(self).pixels@ == Seq::new(
                    (final(self).width * final(self).height) as nat,
                    |i: int| 0u32,
                )
                &&& final(self).clip_rect() == final(self).screen()
            },
    {
        let width = if width < 1 { 1 } else { width };
        let height = if height < 1 { 1 } else { height };
        if width == self.width && height == self.height {
            return;
        }
        self.width = width;
        self.height = height;
        self.pixels.clear();
        let n = width as usize * height as usize;
        self.pixels.resize(n, 0u32);
        self.clip = ClipRect { rect: Rect::new(0, 0, width, height) };
        assert(self.pixels@ == Seq::new((self.width * self.height) as nat, |i: int| 0u32));
    }

    /// confines all further drawing to `rect`, cut down to the buffer
    pub fn set_clip(&mut self, rect: Rect)
        requires
            old(self).wf(),
        ensures
            final(self).wf(),
            final(self).clip_rect() == rect.spec_intersect(old(self).screen()),
            final(self).pixels == old(self).pixels,
            final(self).width == old(self).width,
            final(self).height == old(self).height,
    {
        self.clip = ClipRect { rect: rect.intersect(Rect::new(0, 0, self.width, self.height)) };
    }

    /// fills `rect` (within the clip) with `color`, alpha-blended; a fully
    /// transparent color draws nothing
    pub fn draw_rect(&mut self, rect: Rect, color: Color)
        requires
            old(self).wf(),
        ensures
            final(self).wf(),
            final(self).width == old(self).width,
            final(self).height == old(self).height,
            final(self).clip == old(self).clip,
            final(self).pixels@ == rect_paint_all(
                old(self).pixels@,
                old(self).width as int,
                old(self).clip_rect(),
                rect,
                color,
            ),
    {
        let ghost f = |o: u32, px: int, py: int| rect_paint(o, rect.spec_intersect(old(self).clip_rect()), color, px, py);
        if color.a == 0 {
            return;
        }
        let r = rect.intersect(self.clip.rect);
        let ghost old_pixels = self.pixels@;
        let w = self.width;
        let h = self.height;
        let len = self.pixels.len();
        if r.is_empty() {
            proof {
                lemma_pixels_from_coords(old_pixels, old_pixels, w as int, h as int, f);
            }
            return;
        }
        let mut j = r.y;
        while j < r.y + r.height
            invariant
                self.wf(),
                self.width == w,
                self.height == h,
                self.clip == old(self).clip,
                r == rect.spec_intersect(old(self).clip_rect()),
                f == (|o: u32, px: int, py: int| rect_paint(o, r, color, px, py)),
                self.pixels@.len() == old_pixels.len(),
                old_pixels.len() == w * h,
                len == w * h,
                color.a != 0,
                r.x >= 0,
                r.y >= 0,
                r.width > 0,
                r.x2() <= w,
                r.y2() <= h,
                r.y <= j <= r.y2(),
                forall|px: int, py: int|
                    0 <= px < w && 0 <= py < h
                    ==> #[trigger] pixel_of(self.pixels@, w as int, px, py)
                        == if py < j { f(pixel_of(old_pixels, w as int, px, py), px, py) } else {
                            pixel_of(old_pixels, w as int, px, py)
                        },
            decreases r.y2() - j,
        {
            proof {
                lemma_index_in_bounds(w as int, h as int, r.x as int, j as int);
                assert(j * w + r.x2() <= w * h) by (nonlinear_arith)
                    requires 0 <= j < h, r.x2() <= w, w >= 1;
                assert(0 <= j * w) by (nonlinear_arith)
                    requires 0 <= j, w >= 1;
            }
            let row = j as usize * w as usize + r.x as usize;
            let mut i: i32 = 0;
            while i < r.width
                invariant
                    self.wf(),
                    self.width == w,
                    self.height == h,
                    self.clip == old(self).clip,
                    f == (|o: u32, px: int, py: int| rect_paint(o, r, color, px, py)),
                    self.pixels@.len() == old_pixels.len(),
                    old_pixels.len() == w * h,
                    len == w * h,
                    color.a != 0,
                    r.x >= 0,
                    r.y >= 0,
                    r.width > 0,
                    r.x2() <= w,
                    r.y2() <= h,
                    r.y <= j < r.y2(),
                    row == j * w + r.x,
                    j * w + r.x2() <= w * h,
                    0 <= i <= r.width,
                    forall|px: int, py: int|
                        0 <= px < w && 0 <= py < h
                        ==> #[trigger] pixel_of(self.pixels@, w as int, px, py)
                            == if py < j || (py == j && px < r.x + i && r.contains(px, py)) {
                                f(pixel_of(old_pixels, w as int, px, py), px, py)
                            } else {
                                pixel_of(old_pixels, w as int, px, py)
                            },
                decreases r.width - i,
            {
                let idx = row + i as usize;
                let ghost cx = r.x + i;
                let ghost before = self.pixels@;
                proof {
                    // a pixel not yet painted still holds its old value
                    assert(pixel_of(before, w as int, cx, j as int) == before[idx as int]);
                    assert(pixel_of(old_pixels, w as int, cx, j as int) == old_pixels[idx as int]);
                }
                let v = if color.a == 255 {
                    proof {
                        lemma_blend_opaque(self.pixels@[idx as int], color.r, color.g, color.b);
                    }
                    pack(color.r, color.g, color.b)
                } else {
                    blend(self.pixels[idx], color.r, color.g, color.b, color.a)
                };
                self.pixels.set(idx, v);
                proof {
                    let ghost jj = j as int;
                    let ghost ii = i as int;
                    lemma_paint_step(
                        before,
                        self.pixels@,
                        old_pixels,
                        w as int,
                        h as int,
                        cx,
                        jj,
                        f,
                        |px: int, py: int| py < jj || (py == jj && px < r.x + ii && r.contains(px, py)),
                        |px: int, py: int| py < jj || (py == jj && px < r.x + ii + 1 && r.contains(px, py)),
                    );
                }
                i = i + 1;
            }
            proof {
                let ghost jj = j as int;
                assert forall|px: int, py: int|
                    0 <= px < w && 0 <= py < h
                    implies #[trigger] pixel_of(self.pixels@, w as int, px, py)
                        == if py < jj + 1 { f(pixel_of(old_pixels, w as int, px, py), px, py) } else {
                            pixel_of(old_pixels, w as int, px, py)
                        }
                by {
                    if py == jj && !(px < r.x + r.width && r.contains(px, py)) {
                        assert(!r.contains(px, py));
                    }
                }
            }
            j = j + 1;
        }
        proof {
            assert forall|px: int, py: int|
                0 <= px < w && 0 <= py < h
                implies #[trigger] pixel_of(self.pixels@, w as int, px, py)
                    == f(pixel_of(old_pixels, w as int, px, py), px, py)
            by {
                if py >= j {
                    assert(!r.contains(px, py));
                }
            }
            lemma_pixels_from_coords(self.pixels@, old_pixels, w as int, h as int, f);
        }
    }

    /// blits an alpha mask (a rasterized glyph) tinted with `color`
    fn draw_mask(&mut self, mask: &Vec<u8>, mw: i32, x: i32, y: i32, color: Color)
        requires
            old(self).wf(),
        ensures
            final(self).wf(),
            final(self).width == old(self).width,
            final(self).height == old(self).height,
            final(self).clip == old(self).clip,
            final(self).pixels@ == mask_paint_all(
                old(self).pixels@,
                old(self).width as int,
                old(self).clip_rect(),
                mask@,
                mw,
                x,
                y,
                color,
            ),
    {
        let ghost old_pixels = self.pixels@;
        let w = self.width;
        let h = self.height;
        if color.a == 0 || mask.len() == 0 || mw <= 0 {
            return;
        }
        let ghost area = mask_area(mask@.len() as int, mw, x, y, self.clip_rect());
        let ghost f = |o: u32, px: int, py: int| mask_paint(o, mask@, mw as int, x as int, y as int, area, color, px, py);
        let len_i = #[verifier::truncate] (mask.len() as i32);
        let mlen = mask.len();
        proof {
            lemma_truncated_len(mask@.len() as usize);
        }
        if len_i <= 0 {
            proof {
                assert(area.spec_is_empty());
                assert forall|px: int, py: int|
                    0 <= px < w && 0 <= py < h
                    implies #[trigger] pixel_of(self.pixels@, w as int, px, py)
                        == f(pixel_of(old_pixels, w as int, px, py), px, py)
                by {}
                lemma_pixels_from_coords(old_pixels, old_pixels, w as int, h as int, f);
            }
            return;
        }
        let mh = (len_i as u32 / mw as u32) as i32;
        assert(mh == mask_rows(mask@.len() as int, mw as int));
        proof {
            assert(mh * mw <= len_i) by (nonlinear_arith)
                requires mh == len_i / mw, mw > 0, len_i > 0;
        }
        let sub = Rect::new(x, y, mw, mh).intersect(self.clip.rect);
        assert(sub == area);
        let len = self.pixels.len();
        if sub.is_empty() {
            proof {
                assert forall|px: int, py: int|
                    0 <= px < w && 0 <= py < h
                    implies #[trigger] pixel_of(self.pixels@, w as int, px, py)
                        == f(pixel_of(old_pixels, w as int, px, py), px, py)
                by {}
                lemma_pixels_from_coords(old_pixels, old_pixels, w as int, h as int, f);
            }
            return;
        }
        let mut j: i32 = 0;
        while j < sub.height
            invariant
                self.wf(),
                self.width == w,
                self.height == h,
                self.clip == old(self).clip,
                sub == area,
                f == (|o: u32, px: int, py: int| mask_paint(o, mask@, mw as int, x as int, y as int, sub, color, px, py)),
                self.pixels@.len() == old_pixels.len(),
                old_pixels.len() == w * h,
                len == w * h,
                mw > 0,
                mh > 0,
                mh * mw <= mask@.len(),
                mlen == mask@.len(),
                sub.x >= x,
                sub.y >= y,
                sub.x2() <= x + mw,
                sub.y2() <= y + mh,
                sub.x >= 0,
                sub.y >= 0,
                sub.width > 0,
                sub.height > 0,
                sub.x2() <= w,
                sub.y2() <= h,
                0 <= j <= sub.height,
                forall|px: int, py: int|
                    0 <= px < w && 0 <= py < h
                    ==> #[trigger] pixel_of(self.pixels@, w as int, px, py)
                        == if py < sub.y + j { f(pixel_of(old_pixels, w as int, px, py), px, py) } else {
                            pixel_of(old_pixels, w as int, px, py)
                        },
            decreases sub.height - j,
        {
            let ghost cy = sub.y + j;
            proof {
                assert(cy * w + sub.x2() <= w * h) by (nonlinear_arith)
                    requires 0 <= cy < h, sub.x2() <= w, w >= 1;
                assert(0 <= cy * w) by (nonlinear_arith)
                    requires 0 <= cy, w >= 1;
                let ghost my = cy - y;
                assert(my * mw + (sub.x2() - x) <= mh * mw) by (nonlinear_arith)
                    requires 0 <= my < mh, sub.x2() - x <= mw, mw >= 1;
                assert(0 <= my * mw) by (nonlinear_arith)
                    requires 0 <= my, mw >= 1;
            }
            let src_row = (sub.y - y + j) as usize * mw as usize + (sub.x - x) as usize;
            let dst_row = (sub.y + j) as usize * w as usize + sub.x as usize;
            let mut i: i32 = 0;
            while i < sub.width
                invariant
                    self.wf(),
                    self.width == w,
                    self.height == h,
                    self.clip == old(self).clip,
                    f == (|o: u32, px: int, py: int| mask_paint(o, mask@, mw as int, x as int, y as int, sub, color, px, py)),
                    self.pixels@.len() == old_pixels.len(),
                    old_pixels.len() == w * h,
                    len == w * h,
                    mw > 0,
                    mh > 0,
                    mh * mw <= mask@.len(),
                    mlen == mask@.len(),
                    sub.x >= x,
                    sub.y >= y,
                    sub.x2() <= x + mw,
                    sub.y2() <= y + mh,
                    sub.x >= 0,
                    sub.y >= 0,
                    sub.width > 0,
                    sub.x2() <= w,
                    sub.y2() <= h,
                    0 <= j < sub.height,
                    cy == sub.y + j,
                    dst_row == cy * w + sub.x,
                    cy * w + sub.x2() <= w * h,
                    src_row == (cy - y) * mw + (sub.x - x),
                    (cy - y) * mw + (sub.x2() - x) <= mh * mw,
                    0 <= i <= sub.width,
                    forall|px: int, py: int|
                        0 <= px < w && 0 <= py < h
                        ==> #[trigger] pixel_of(self.pixels@, w as int, px, py)
                            == if py < cy || (py == cy && px < sub.x + i && sub.contains(px, py)) {
                                f(pixel_of(old_pixels, w as int, px, py), px, py)
                            } else {
                                pixel_of(old_pixels, w as int, px, py)
                            },
                decreases sub.width - i,
            {
                let ghost cx = sub.x + i;
                let ghost before = self.pixels@;
                let idx = dst_row + i as usize;
                let src = src_row + i as usize;
                proof {
                    assert(pixel_of(before, w as int, cx, cy) == before[idx as int]);
                    assert(pixel_of(old_pixels, w as int, cx, cy) == old_pixels[idx as int]);
                    assert(src == (cy - y) * mw + (cx - x));
                }
                let a = mul255(mask[src], color.a);
                if a != 0 {
                    let v = blend(self.pixels[idx], color.r, color.g, color.b, a);
                    self.pixels.set(idx, v);
                } else {
                    proof {
                        assert(self.pixels@ =~= before.update(idx as int, f(old_pixels[idx as int], cx, cy)));
                    }
                }
                proof {
                    let ghost ii = i as int;
                    lemma_paint_step(
                        before,
                        self.pixels@,
                        old_pixels,
                        w as int,
                        h as int,
                        cx,
                        cy,
                        f,
                        |px: int, py: int| py < cy || (py == cy && px < sub.x + ii && sub.contains(px, py)),
                        |px: int, py: int| py < cy || (py == cy && px < sub.x + ii + 1 && sub.contains(px, py)),
                    );
                }
                i = i + 1;
            }
            proof {
                assert forall|px: int, py: int|
                    0 <= px < w && 0 <= py < h
                    implies #[trigger] pixel_of(self.pixels@, w as int, px, py)
                        == if py < cy + 1 { f(pixel_of(old_pixels, w as int, px, py), px, py) } else {
                            pixel_of(old_pixels, w as int, px, py)
                        }
                by {
                    if py == cy && !(px < sub.x + sub.width && sub.contains(px, py)) {
                        assert(!sub.contains(px, py));
                    }
                }
            }
            j = j + 1;
        }
        proof {
            assert forall|px: int, py: int|
                0 <= px < w && 0 <= py < h
                implies #[trigger] pixel_of(self.pixels@, w as int, px, py)
                    == f(pixel_of(old_pixels, w as int, px, py), px, py)
            by {
                if py >= sub.y + j {
                    assert(!sub.contains(px, py));
                }
            }
            lemma_pixels_from_coords(self.pixels@, old_pixels, w as int, h as int, f);
        }
    }

    /// draws `image` scaled to fill `dest` (nearest neighbor), tinted by
    /// `color` -- white is identity, like draw_text. every output pixel
    /// maps to its source pixel from its absolute offset in `dest` alone,
    /// so clipping skips pixels but can never shift the mapping
    pub fn draw_image(&mut self, image: &Image, dest: Rect, color: Color)
        requires
            old(self).wf(),
        ensures
            final(self).wf(),
            final(self).width == old(self).width,
            final(self).height == old(self).height,
            final(self).clip == old(self).clip,
            final(self).pixels@ == image_paint_all(
                old(self).pixels@,
                old(self).width as int,
                old(self).clip_rect(),
                image@,
                dest,
                color,
            ),
    {
        let ghost old_pixels = self.pixels@;
        let w = self.width;
        let h = self.height;
        if color.a == 0 || dest.is_empty() {
            return;
        }
        let iw = image.width();
        let ih = image.height();
        let sub = dest.intersect(self.clip.rect);
        let ghost f = |o: u32, px: int, py: int| image_paint(o, image@, dest, sub, color, px, py);
        let len = self.pixels.len();
        if sub.is_empty() {
            proof {
                assert forall|px: int, py: int|
                    0 <= px < w && 0 <= py < h
                    implies #[trigger] pixel_of(self.pixels@, w as int, px, py)
                        == f(pixel_of(old_pixels, w as int, px, py), px, py)
                by {}
                lemma_pixels_from_coords(old_pixels, old_pixels, w as int, h as int, f);
            }
            return;
        }
        let mut j: i32 = 0;
        while j < sub.height
            invariant
                self.wf(),
                self.width == w,
                self.height == h,
                self.clip == old(self).clip,
                sub == dest.spec_intersect(old(self).clip_rect()),
                f == (|o: u32, px: int, py: int| image_paint(o, image@, dest, sub, color, px, py)),
                self.pixels@.len() == old_pixels.len(),
                old_pixels.len() == w * h,
                len == w * h,
                iw == image@.width,
                ih == image@.height,
                iw >= 1,
                ih >= 1,
                dest.width > 0,
                dest.height > 0,
                sub.x >= dest.x,
                sub.y >= dest.y,
                sub.x2() <= dest.x2(),
                sub.y2() <= dest.y2(),
                sub.x >= 0,
                sub.y >= 0,
                sub.width > 0,
                sub.height > 0,
                sub.x2() <= w,
                sub.y2() <= h,
                0 <= j <= sub.height,
                forall|px: int, py: int|
                    0 <= px < w && 0 <= py < h
                    ==> #[trigger] pixel_of(self.pixels@, w as int, px, py)
                        == if py < sub.y + j { f(pixel_of(old_pixels, w as int, px, py), px, py) } else {
                            pixel_of(old_pixels, w as int, px, py)
                        },
            decreases sub.height - j,
        {
            let ghost cy = sub.y + j;
            let oy = (sub.y as i64 - dest.y as i64 + j as i64) as u64;
            proof {
                assert(cy * w + sub.x2() <= w * h) by (nonlinear_arith)
                    requires 0 <= cy < h, sub.x2() <= w, w >= 1;
                assert(0 <= cy * w) by (nonlinear_arith)
                    requires 0 <= cy, w >= 1;
                lemma_scale_index(oy as int, ih as int, dest.height as int);
            }
            let sy = ((oy * ih as u64) / dest.height as u64) as i32;
            let dst_row = (sub.y + j) as usize * w as usize + sub.x as usize;
            let mut i: i32 = 0;
            while i < sub.width
                invariant
                    self.wf(),
                    self.width == w,
                    self.height == h,
                    self.clip == old(self).clip,
                    f == (|o: u32, px: int, py: int| image_paint(o, image@, dest, sub, color, px, py)),
                    self.pixels@.len() == old_pixels.len(),
                    old_pixels.len() == w * h,
                    len == w * h,
                    iw == image@.width,
                    ih == image@.height,
                    iw >= 1,
                    ih >= 1,
                    dest.width > 0,
                    dest.height > 0,
                    sub.x >= dest.x,
                    sub.y >= dest.y,
                    sub.x2() <= dest.x2(),
                    sub.y2() <= dest.y2(),
                    sub.x >= 0,
                    sub.y >= 0,
                    sub.width > 0,
                    sub.x2() <= w,
                    sub.y2() <= h,
                    0 <= j < sub.height,
                    cy == sub.y + j,
                    oy == cy - dest.y,
                    sy == (cy - dest.y) * ih / (dest.height as int),
                    0 <= sy < ih,
                    dst_row == cy * w + sub.x,
                    cy * w + sub.x2() <= w * h,
                    0 <= i <= sub.width,
                    forall|px: int, py: int|
                        0 <= px < w && 0 <= py < h
                        ==> #[trigger] pixel_of(self.pixels@, w as int, px, py)
                            == if py < cy || (py == cy && px < sub.x + i && sub.contains(px, py)) {
                                f(pixel_of(old_pixels, w as int, px, py), px, py)
                            } else {
                                pixel_of(old_pixels, w as int, px, py)
                            },
                decreases sub.width - i,
            {
                let ghost cx = sub.x + i;
                let ghost before = self.pixels@;
                let idx = dst_row + i as usize;
                let ox = (sub.x as i64 - dest.x as i64 + i as i64) as u64;
                proof {
                    assert(pixel_of(before, w as int, cx, cy) == before[idx as int]);
                    assert(pixel_of(old_pixels, w as int, cx, cy) == old_pixels[idx as int]);
                    lemma_scale_index(ox as int, iw as int, dest.width as int);
                }
                let sx = ((ox * iw as u64) / dest.width as u64) as i32;
                let c = image.pixel(sx, sy);
                assert(c == image_source(image@, dest, cx, cy));
                let a = mul255(c.a, color.a);
                if a != 0 {
                    let r = mul255(c.r, color.r);
                    let g = mul255(c.g, color.g);
                    let b = mul255(c.b, color.b);
                    let v = if a == 255 {
                        proof {
                            lemma_blend_opaque(before[idx as int], r, g, b);
                        }
                        pack(r, g, b)
                    } else {
                        blend(self.pixels[idx], r, g, b, a)
                    };
                    self.pixels.set(idx, v);
                } else {
                    proof {
                        assert(self.pixels@ =~= before.update(idx as int, f(old_pixels[idx as int], cx, cy)));
                    }
                }
                proof {
                    let ghost ii = i as int;
                    lemma_paint_step(
                        before,
                        self.pixels@,
                        old_pixels,
                        w as int,
                        h as int,
                        cx,
                        cy,
                        f,
                        |px: int, py: int| py < cy || (py == cy && px < sub.x + ii && sub.contains(px, py)),
                        |px: int, py: int| py < cy || (py == cy && px < sub.x + ii + 1 && sub.contains(px, py)),
                    );
                }
                i = i + 1;
            }
            proof {
                assert forall|px: int, py: int|
                    0 <= px < w && 0 <= py < h
                    implies #[trigger] pixel_of(self.pixels@, w as int, px, py)
                        == if py < cy + 1 { f(pixel_of(old_pixels, w as int, px, py), px, py) } else {
                            pixel_of(old_pixels, w as int, px, py)
                        }
                by {
                    if py == cy && !(px < sub.x + sub.width && sub.contains(px, py)) {
                        assert(!sub.contains(px, py));
                    }
                }
            }
            j = j + 1;
        }
        proof {
            assert forall|px: int, py: int|
                0 <= px < w && 0 <= py < h
                implies #[trigger] pixel_of(self.pixels@, w as int, px, py)
                    == f(pixel_of(old_pixels, w as int, px, py), px, py)
            by {
                if py >= sub.y + j {
                    assert(!sub.contains(px, py));
                }
            }
            lemma_pixels_from_coords(self.pixels@, old_pixels, w as int, h as int, f);
        }
    }

    /// draws `text` with its top-left corner at (x, y), `glyphs[k]` being
    /// the rasterized k-th char (ignored for tabs); returns the pen x
    /// position after the last glyph
    pub fn draw_text(
        &mut self,
        text: &[char],
        glyphs: &[Glyph],
        ascent: i32,
        tab_advance: i32,
        x: i32,
        y: i32,
        color: Color,
    ) -> (pen: i32)
        requires
            old(self).wf(),
            glyphs@.len() == text@.len(),
        ensures
            final(self).wf(),
            final(self).width == old(self).width,
            final(self).height == old(self).height,
            final(self).clip == old(self).clip,
            pen == pen_at(text@, glyphs@, tab_advance, x, text@.len()),
            final(self).pixels@ == text_paint(
                old(self).pixels@,
                old(self).width as int,
                old(self).clip_rect(),
                text@,
                glyphs@,
                ascent,
                tab_advance,
                x,
                y,
                color,
                text@.len(),
            ),
    {
        let mut pen = x;
        let baseline = sat_add(y, ascent);
        let mut k: usize = 0;
        while k < text.len()
            invariant
                self.wf(),
                self.width == old(self).width,
                self.height == old(self).height,
                self.clip == old(self).clip,
                glyphs@.len() == text@.len(),
                0 <= k <= text@.len(),
                baseline == sat_i32(y + ascent),
                pen == pen_at(text@, glyphs@, tab_advance, x, k as nat),
                self.pixels@ == text_paint(
                    old(self).pixels@,
                    old(self).width as int,
                    old(self).clip_rect(),
                    text@,
                    glyphs@,
                    ascent,
                    tab_advance,
                    x,
                    y,
                    color,
                    k as nat,
                ),
            decreases text@.len() - k,
        {
            let ch = text[k];
            if ch == '\t' {
                pen = sat_add(pen, tab_advance);
            } else {
                let glyph = &glyphs[k];
                let gx = sat_add(pen, glyph.left);
                let gy = sat_sub(baseline, glyph.top);
                self.draw_mask(&glyph.mask, glyph.width, gx, gy, color);
                pen = sat_add(pen, glyph.advance);
            }
            k = k + 1;
        }
        pen
    }
}

} // verus!
