//! a cache over the software renderer -- all drawing operations are stored
//! as commands when issued. at the end of the frame the commands are hashed
//! into a grid of cells; cells that changed since the previous frame are
//! merged into dirty rectangles and only those regions are redrawn.
//!
//! the buffers grow as needed: no dropped commands on huge frames, no
//! out-of-bounds cells on very wide displays. a text command carries its
//! font's identity and the glyphs it draws, so the frame that replays it
//! paints exactly what was recorded.

use vstd::prelude::*;

use crate::font::{FontMetrics, Glyph, chars_of, ink_box, ink_box_of, raw_width, width_of};
use crate::renderer::{
    Color, Framebuffer, Rect, lemma_coords, lemma_index_in_bounds, lemma_index_injective, lemma_paint_step,
    lemma_pixels_from_coords, max_int, min_int, paint_all, pixel_of, rect_paint_all, sat_add, sat_i32, text_paint,
};

verus! {

pub const HASH_INITIAL: u32 = 2166136261;

pub const FNV_PRIME: u32 = 16777619;

/// one step of 32-bit fnv-1a
pub open spec fn fnv_step(h: u32, b: u8) -> u32 {
    (((h ^ (b as u32)) as int * FNV_PRIME as int) % 0x1_0000_0000) as u32
}

/// 32-bit fnv-1a of `bytes`, continuing from the state `h`
pub open spec fn fnv_spec(h: u32, bytes: Seq<u8>) -> u32
    decreases bytes.len(),
{
    if bytes.len() == 0 {
        h
    } else {
        fnv_step(fnv_spec(h, bytes.drop_last()), bytes.last())
    }
}

/// the four little-endian bytes of `v`
pub open spec fn le_bytes(v: u32) -> Seq<u8> {
    seq![(v % 256) as u8, ((v / 256) % 256) as u8, ((v / 65536) % 256) as u8, (v / 16777216) as u8]
}

/// the little-endian bytes of an i32, as `i32::to_le_bytes` lays them out
pub open spec fn le_bytes_i32(v: i32) -> Seq<u8> {
    le_bytes(v as u32)
}

pub proof fn lemma_fnv_append(h: u32, a: Seq<u8>, b: Seq<u8>)
    ensures
        fnv_spec(h, a + b) == fnv_spec(fnv_spec(h, a), b),
    decreases b.len(),
{
    if b.len() == 0 {
        assert(a + b =~= a);
    } else {
        assert((a + b).drop_last() =~= a + b.drop_last());
        lemma_fnv_append(h, a, b.drop_last());
    }
}

/// 32-bit fnv-1a, a fixed function keeps frames deterministic
/// across runs, which the pixel-comparing tests depend on
pub struct Fnv(pub u32);

impl Fnv {
    pub fn new() -> (f: Fnv)
        ensures
            f.0 == HASH_INITIAL,
    {
        Fnv(HASH_INITIAL)
    }

    pub fn write(&mut self, bytes: &[u8])
        ensures
            final(self).0 == fnv_spec(old(self).0, bytes@),
    {
        let mut i: usize = 0;
        while i < bytes.len()
            invariant
                0 <= i <= bytes@.len(),
                self.0 == fnv_spec(old(self).0, bytes@.subrange(0, i as int)),
            decreases bytes@.len() - i,
        {
            let b = bytes[i];
            assert(bytes@.subrange(0, i + 1).drop_last() =~= bytes@.subrange(0, i as int));
            self.0 = (self.0 ^ b as u32).wrapping_mul(FNV_PRIME);
            i = i + 1;
        }
        assert(bytes@.subrange(0, bytes@.len() as int) =~= bytes@);
    }

    pub fn write_u64(&mut self, v: u64)
        ensures
            final(self).0 == fnv_spec(old(self).0, le_bytes_u64(v)),
    {
        let lo = v as u32;
        let hi = (v >> 32) as u32;
        proof {
            lemma_split_u64(v);
        }
        self.write_u32(lo);
        self.write_u32(hi);
        proof {
            lemma_fnv_append(old(self).0, le_bytes(lo), le_bytes(hi));
        }
    }

    fn write_u32(&mut self, u: u32)
        ensures
            final(self).0 == fnv_spec(old(self).0, le_bytes(u)),
    {
        let bytes: [u8; 4] = [u as u8, (u >> 8) as u8, (u >> 16) as u8, (u >> 24) as u8];
        proof {
            lemma_le_bytes(u);
            assert(bytes@ =~= le_bytes(u));
        }
        self.write(&bytes);
    }

    pub fn write_i32(&mut self, v: i32)
        ensures
            final(self).0 == fnv_spec(old(self).0, le_bytes_i32(v)),
    {
        let u = v as u32;
        let bytes: [u8; 4] = [u as u8, (u >> 8) as u8, (u >> 16) as u8, (u >> 24) as u8];
        proof {
            lemma_le_bytes(u);
            assert(bytes@ =~= le_bytes(u));
        }
        self.write(&bytes);
    }
}

proof fn lemma_split_u64(v: u64)
    by (bit_vector)
    ensures
        v as u32 == v % 0x1_0000_0000,
        (v >> 32) as u32 == v / 0x1_0000_0000,
{
}

/// a clip rect as the cache records it: cut to a screen at the origin, so
/// it starts at a non-negative point, has no negative extent, and ends
/// inside the i32 range
pub open spec fn clip_ok(r: Rect) -> bool {
    &&& r.x >= 0
    &&& r.y >= 0
    &&& r.width >= 0
    &&& r.height >= 0
    &&& r.x2() <= i32::MAX
    &&& r.y2() <= i32::MAX
}

proof fn lemma_le_bytes(u: u32)
    by (bit_vector)
    ensures
        u as u8 == u % 256,
        (u >> 8) as u8 == (u / 256) % 256,
        (u >> 16) as u8 == (u / 65536) % 256,
        (u >> 24) as u8 == u / 16777216,
{
}

/// the side of a square cell of the change-tracking grid, in pixels
pub const CELL_SIZE: i32 = 96;

/// the eight little-endian bytes of `v`
pub open spec fn le_bytes_u64(v: u64) -> Seq<u8> {
    le_bytes((v % 0x1_0000_0000) as u32) + le_bytes((v / 0x1_0000_0000) as u32)
}

/// one recorded drawing operation
pub enum Command {
    SetClip { rect: Rect },
    DrawRect { rect: Rect, color: Color },
    DrawText {
        font_id: u64,
        text: String,
        /// the chars of `text`, one glyph each
        chars: Vec<char>,
        glyphs: Vec<Glyph>,
        /// pen origin: top-left of the line box, where drawing starts
        x: i32,
        y: i32,
        /// covers the metric box and all glyph ink; the cells this rect
        /// overlaps are the ones the command is hashed into
        rect: Rect,
        color: Color,
        ascent: i32,
        tab_advance: i32,
    },
}

/// a text command's hash covers its text: two text commands alike in
/// everything the hash reads but their text, with different texts, hash
/// different bytes, so a line whose text changes is not taken for the old one
pub proof fn lemma_text_is_hashed(a: Command, b: Command)
    requires
        a is DrawText,
        b is DrawText,
        a.spec_rect() == b.spec_rect(),
        a->font_id == b->font_id,
        a->x == b->x,
        a->y == b->y,
        a->DrawText_color == b->DrawText_color,
        a->tab_advance == b->tab_advance,
        a->text@ != b->text@,
    ensures
        a.hash_bytes() != b.hash_bytes(),
{
    let ea = vstd::utf8::encode_utf8(a->text@);
    let eb = vstd::utf8::encode_utf8(b->text@);
    let r = a.spec_rect();
    let c = a->DrawText_color;
    let head = le_bytes_i32(r.x) + le_bytes_i32(r.y) + le_bytes_i32(r.width) + le_bytes_i32(r.height) + seq![
        2u8,
        c.r,
        c.g,
        c.b,
        c.a,
    ] + le_bytes_u64(a->font_id) + le_bytes_i32(a->x) + le_bytes_i32(a->y) + le_bytes_i32(a->tab_advance);
    assert(a.hash_bytes() == head + ea);
    assert(b.hash_bytes() == head + eb);
    if a.hash_bytes() == b.hash_bytes() {
        assert((head + ea).skip(head.len() as int) =~= ea);
        assert((head + eb).skip(head.len() as int) =~= eb);
        vstd::utf8::encode_utf8_decode_utf8(a->text@);
        vstd::utf8::encode_utf8_decode_utf8(b->text@);
    }
}

impl Command {
    pub open spec fn spec_rect(self) -> Rect {
        match self {
            Command::SetClip { rect } => rect,
            Command::DrawRect { rect, .. } => rect,
            Command::DrawText { rect, .. } => rect,
        }
    }

    /// the bytes a command's hash is taken over: its rect, a tag and the
    /// parameters that decide its pixels
    pub open spec fn hash_bytes(self) -> Seq<u8> {
        let r = self.spec_rect();
        let head = le_bytes_i32(r.x) + le_bytes_i32(r.y) + le_bytes_i32(r.width) + le_bytes_i32(r.height);
        match self {
            Command::SetClip { .. } => head + seq![0u8],
            Command::DrawRect { color, .. } => head + seq![1u8, color.r, color.g, color.b, color.a],
            Command::DrawText { font_id, text, x, y, color, tab_advance, .. } => head + seq![
                2u8,
                color.r,
                color.g,
                color.b,
                color.a,
            ] + le_bytes_u64(font_id) + le_bytes_i32(x) + le_bytes_i32(y) + le_bytes_i32(tab_advance)
                + vstd::utf8::encode_utf8(text@),
        }
    }

    pub open spec fn spec_hash(self) -> u32 {
        fnv_spec(HASH_INITIAL, self.hash_bytes())
    }

    /// a text command's chars and glyphs line up with its text
    pub open spec fn wf(self) -> bool {
        match self {
            Command::DrawText { text, chars, glyphs, .. } => chars@ == text@ && glyphs@.len() == chars@.len(),
            Command::SetClip { rect } => clip_ok(rect),
            _ => true,
        }
    }

    fn rect(&self) -> (r: Rect)
        ensures
            r == self.spec_rect(),
    {
        match self {
            Command::SetClip { rect } => *rect,
            Command::DrawRect { rect, .. } => *rect,
            Command::DrawText { rect, .. } => *rect,
        }
    }

    fn hash(&self) -> (h: u32)
        ensures
            h == self.spec_hash(),
    {
        let mut h = Fnv::new();
        let rect = self.rect();
        h.write_i32(rect.x);
        h.write_i32(rect.y);
        h.write_i32(rect.width);
        h.write_i32(rect.height);
        let ghost head = le_bytes_i32(rect.x) + le_bytes_i32(rect.y) + le_bytes_i32(rect.width) + le_bytes_i32(rect.height);
        proof {
            lemma_fnv_append(HASH_INITIAL, le_bytes_i32(rect.x), le_bytes_i32(rect.y));
            lemma_fnv_append(HASH_INITIAL, le_bytes_i32(rect.x) + le_bytes_i32(rect.y), le_bytes_i32(rect.width));
            lemma_fnv_append(
                HASH_INITIAL,
                le_bytes_i32(rect.x) + le_bytes_i32(rect.y) + le_bytes_i32(rect.width),
                le_bytes_i32(rect.height),
            );
            assert(h.0 == fnv_spec(HASH_INITIAL, head));
        }
        match self {
            Command::SetClip { .. } => {
                let tag: [u8; 1] = [0];
                h.write(&tag);
                proof {
                    assert(tag@ =~= seq![0u8]);
                    lemma_fnv_append(HASH_INITIAL, head, seq![0u8]);
                }
            },
            Command::DrawRect { color, .. } => {
                let bytes: [u8; 5] = [1, color.r, color.g, color.b, color.a];
                h.write(&bytes);
                proof {
                    assert(bytes@ =~= seq![1u8, color.r, color.g, color.b, color.a]);
                    lemma_fnv_append(HASH_INITIAL, head, bytes@);
                }
            },
            Command::DrawText { font_id, text, x, y, color, tab_advance, .. } => {
                let bytes: [u8; 5] = [2, color.r, color.g, color.b, color.a];
                h.write(&bytes);
                let ghost s1 = head + bytes@;
                proof {
                    lemma_fnv_append(HASH_INITIAL, head, bytes@);
                }
                h.write_u64(*font_id);
                proof {
                    lemma_fnv_append(HASH_INITIAL, s1, le_bytes_u64(*font_id));
                }
                let ghost s2 = s1 + le_bytes_u64(*font_id);
                h.write_i32(*x);
                proof {
                    lemma_fnv_append(HASH_INITIAL, s2, le_bytes_i32(*x));
                }
                let ghost s3 = s2 + le_bytes_i32(*x);
                h.write_i32(*y);
                proof {
                    lemma_fnv_append(HASH_INITIAL, s3, le_bytes_i32(*y));
                }
                let ghost s4 = s3 + le_bytes_i32(*y);
                h.write_i32(*tab_advance);
                proof {
                    lemma_fnv_append(HASH_INITIAL, s4, le_bytes_i32(*tab_advance));
                }
                let ghost s5 = s4 + le_bytes_i32(*tab_advance);
                h.write(text.as_str().as_bytes());
                proof {
                    lemma_fnv_append(HASH_INITIAL, s5, vstd::utf8::encode_utf8(text@));
                    assert(bytes@ =~= seq![2u8, color.r, color.g, color.b, color.a]);
                }
            },
        }
        h.0
    }
}

/// Rust's `/` on integers: rounds toward zero
pub open spec fn tdiv(v: int, d: int) -> int {
    if v >= 0 {
        v / d
    } else {
        -((-v) / d)
    }
}

/// how many grid cells a screen extent of `v` pixels gets (one more than
/// the whole cells it spans)
pub open spec fn grid_cells(v: int) -> int {
    tdiv(v, CELL_SIZE as int) + 1
}

/// the clip in force after the first k commands of a frame
pub open spec fn clip_after(cmds: Seq<Command>, screen: Rect, k: nat) -> Rect
    decreases k,
{
    if k == 0 {
        screen
    } else {
        match cmds[k - 1] {
            Command::SetClip { rect } => rect,
            _ => clip_after(cmds, screen, (k - 1) as nat),
        }
    }
}

/// whether grid cell (cx, cy) is one the rect `r` touches: every cell from
/// the one holding its corner to the one holding its far edge, inclusive
pub open spec fn cell_hit(r: Rect, gw: int, gh: int, cx: int, cy: int) -> bool {
    let x1 = max_int(tdiv(r.x as int, CELL_SIZE as int), 0);
    let y1 = max_int(tdiv(r.y as int, CELL_SIZE as int), 0);
    let x2 = min_int(tdiv(r.x2(), CELL_SIZE as int), gw - 1);
    let y2 = min_int(tdiv(r.y2(), CELL_SIZE as int), gh - 1);
    x1 <= cx <= x2 && y1 <= cy <= y2
}

/// the cell hashes after folding hash `h` into every cell `r` touches
pub open spec fn cells_touched(cells: Seq<u32>, gw: int, gh: int, r: Rect, h: u32) -> Seq<u32> {
    paint_all(cells, gw, |o: u32, cx: int, cy: int| if cell_hit(r, gw, gh, cx, cy) { fnv_spec(o, le_bytes(h)) } else { o })
}

/// the cell hashes after the first k commands of a frame are hashed into
/// the cells their clipped rects touch
pub open spec fn hashed_cells(cells: Seq<u32>, cmds: Seq<Command>, screen: Rect, gw: int, gh: int, k: nat) -> Seq<u32>
    decreases k,
{
    if k == 0 {
        cells
    } else {
        let prev = hashed_cells(cells, cmds, screen, gw, gh, (k - 1) as nat);
        let r = cmds[k - 1].spec_rect().spec_intersect(clip_after(cmds, screen, k));
        if r.spec_is_empty() {
            prev
        } else {
            cells_touched(prev, gw, gh, r, cmds[k - 1].spec_hash())
        }
    }
}

/// `r` merged into the nearest earlier rect (searching from the end) that
/// it overlaps, or appended when it overlaps none
pub open spec fn push_rect_spec(rects: Seq<Rect>, r: Rect) -> Seq<Rect> {
    push_from(rects, r, rects.len())
}

pub open spec fn push_from(rects: Seq<Rect>, r: Rect, n: nat) -> Seq<Rect>
    decreases n,
{
    if n == 0 {
        rects.push(r)
    } else if rects[n - 1].spec_overlaps(r) {
        rects.update(n - 1, rects[n - 1].spec_merge(r))
    } else {
        push_from(rects, r, (n - 1) as nat)
    }
}

/// the one-cell rect of cell index i in a grid `gw` cells wide
pub open spec fn cell_rect(i: int, gw: int) -> Rect {
    Rect { x: (i % gw) as i32, y: (i / gw) as i32, width: 1, height: 1 }
}

/// the changed cells among the first n, in row-major order, merged into
/// rects as they are found; in cell units
pub open spec fn dirty_rects(cells: Seq<u32>, prev: Seq<u32>, gw: int, n: nat) -> Seq<Rect>
    decreases n,
{
    if n == 0 {
        Seq::empty()
    } else {
        let rs = dirty_rects(cells, prev, gw, (n - 1) as nat);
        if cells[n - 1] != prev[n - 1] {
            push_rect_spec(rs, cell_rect(n - 1, gw))
        } else {
            rs
        }
    }
}

/// a rect in cell units scaled to pixels and cut to the screen
pub open spec fn to_pixels(r: Rect, screen: Rect) -> Rect {
    Rect {
        x: (r.x * CELL_SIZE) as i32,
        y: (r.y * CELL_SIZE) as i32,
        width: (r.width * CELL_SIZE) as i32,
        height: (r.height * CELL_SIZE) as i32,
    }.spec_intersect(screen)
}

/// the first n cell rects in pixels, the empty ones dropped
pub open spec fn expand(rects: Seq<Rect>, screen: Rect, n: nat) -> Seq<Rect>
    decreases n,
{
    if n == 0 {
        Seq::empty()
    } else {
        let rs = expand(rects, screen, (n - 1) as nat);
        let p = to_pixels(rects[n - 1], screen);
        if p.spec_is_empty() {
            rs
        } else {
            rs.push(p)
        }
    }
}

/// a rect inside a grid `gw` x `gh` cells
pub open spec fn in_grid(r: Rect, gw: int, gh: int) -> bool {
    &&& r.x >= 0
    &&& r.y >= 0
    &&& r.width >= 0
    &&& r.height >= 0
    &&& r.x2() <= gw
    &&& r.y2() <= gh
}

/// a framebuffer's clip after `set_clip(rect)`
pub open spec fn clipped(fbw: i32, fbh: i32, rect: Rect) -> Rect {
    rect.spec_intersect(Rect { x: 0, y: 0, width: fbw, height: fbh })
}

/// replaying the first k commands of a frame into a framebuffer, all of
/// it confined to the dirty rect `r`: the pixels, the framebuffer's clip and
/// the frame's current clip afterwards
pub open spec fn replay_cmds(
    pixels: Seq<u32>,
    clip: Rect,
    cr: Rect,
    fbw: i32,
    fbh: i32,
    cmds: Seq<Command>,
    r: Rect,
    k: nat,
) -> (Seq<u32>, Rect, Rect)
    decreases k,
{
    if k == 0 {
        (pixels, clip, cr)
    } else {
        let (p, c, cr) = replay_cmds(pixels, clip, cr, fbw, fbh, cmds, r, (k - 1) as nat);
        match cmds[k - 1] {
            Command::SetClip { rect } => {
                let cr2 = rect.spec_intersect(r);
                (p, clipped(fbw, fbh, cr2), cr2)
            },
            Command::DrawRect { rect, color } => (rect_paint_all(p, fbw as int, c, rect, color), c, cr),
            Command::DrawText { chars, glyphs, x, y, rect, color, ascent, tab_advance, .. } => {
                let c2 = clipped(fbw, fbh, rect.spec_intersect(cr));
                (
                    text_paint(p, fbw as int, c2, chars@, glyphs@, ascent, tab_advance, x, y, color, chars@.len()),
                    clipped(fbw, fbh, cr),
                    cr,
                )
            },
        }
    }
}

/// one step of the debug overlay's xorshift generator
pub open spec fn xorshift_spec(s: u32) -> u32 {
    let a = s ^ (s << 13u32);
    let b = a ^ (a >> 17u32);
    b ^ (b << 5u32)
}

/// the translucent tint the debug overlay gives a dirty rect
pub open spec fn debug_color(n: u32) -> Color {
    Color { r: n as u8, g: (n >> 8u32) as u8, b: (n >> 16u32) as u8, a: 50 }
}

/// replaying a frame over the first k dirty rects: each rect gets the whole
/// command list under its own clip, then (with the overlay on) a tint; the
/// pixels, the framebuffer's clip and the generator's state afterwards
pub open spec fn replay_rects(
    pixels: Seq<u32>,
    clip: Rect,
    rng: u32,
    fbw: i32,
    fbh: i32,
    cmds: Seq<Command>,
    rects: Seq<Rect>,
    show_debug: bool,
    k: nat,
) -> (Seq<u32>, Rect, u32)
    decreases k,
{
    if k == 0 {
        (pixels, clip, rng)
    } else {
        let (p, c, g) = replay_rects(pixels, clip, rng, fbw, fbh, cmds, rects, show_debug, (k - 1) as nat);
        let r = rects[k - 1];
        let (p2, c2, _) = replay_cmds(p, clipped(fbw, fbh, r), r, fbw, fbh, cmds, r, cmds.len());
        if show_debug {
            let n = xorshift_spec(g);
            let c3 = clipped(fbw, fbh, r);
            (rect_paint_all(p2, fbw as int, c3, r, debug_color(n)), c3, n)
        } else {
            (p2, c2, g)
        }
    }
}

/// tiny deterministic xorshift; only used to color the debug overlay
pub struct XorShift(pub u32);

impl XorShift {
    pub fn next(&mut self) -> (n: u32)
        ensures
            n == xorshift_spec(old(self).0),
            final(self).0 == n,
    {
        self.0 = self.0 ^ (self.0 << 13u32);
        self.0 = self.0 ^ (self.0 >> 17u32);
        self.0 = self.0 ^ (self.0 << 5u32);
        self.0
    }
}

/// what a cache is: the frame's commands so far, the previous frame's cell
/// hashes, the grid's size, the screen, whether the overlay is on, and the
/// overlay generator's state
pub struct CacheView {
    pub commands: Seq<Command>,
    pub cells_prev: Seq<u32>,
    pub grid_w: int,
    pub grid_h: int,
    pub screen: Rect,
    pub show_debug: bool,
    pub rng: u32,
}

pub struct RenCache {
    commands: Vec<Command>,
    cells: Vec<u32>,
    cells_prev: Vec<u32>,
    grid_w: i32,
    grid_h: i32,
    screen: Rect,
    show_debug: bool,
    rng: XorShift,
}

impl View for RenCache {
    type V = CacheView;

    closed spec fn view(&self) -> CacheView {
        CacheView {
            commands: self.commands@,
            cells_prev: self.cells_prev@,
            grid_w: self.grid_w as int,
            grid_h: self.grid_h as int,
            screen: self.screen,
            show_debug: self.show_debug,
            rng: self.rng.0,
        }
    }
}

/// a grid of `n` cells that no command has touched yet
pub open spec fn fresh_cells(n: int) -> Seq<u32> {
    Seq::new(n as nat, |i: int| HASH_INITIAL)
}

/// the rect a text command records: the metric box (its width and the
/// font's height at (x, y)), grown by the glyphs' ink box where they escape it
pub open spec fn text_rect(font: FontMetrics, text: Seq<char>, glyphs: Seq<Glyph>, x: i32, y: i32) -> Rect {
    let width = sat_i32(raw_width(text, glyphs, font.tab_advance, text.len()));
    let metric = Rect { x, y, width, height: font.height };
    match ink_box(text, glyphs, font.ascent, font.tab_advance, text.len()) {
        Some(ib) => metric.spec_merge(Rect { x: sat_i32(x + ib.x), y: sat_i32(y + ib.y), width: ib.width, height: ib.height }),
        None => metric,
    }
}

/// the screen extents a cache can track: a grid of whole cells that fits in
/// memory and whose pixel extent fits in an i32
pub open spec fn screen_size_ok(width: i32, height: i32) -> bool {
    &&& grid_cells(width as int) >= 0
    &&& grid_cells(height as int) >= 0
    &&& grid_cells(width as int) * CELL_SIZE <= i32::MAX
    &&& grid_cells(height as int) * CELL_SIZE <= i32::MAX
    &&& grid_cells(width as int) * grid_cells(height as int) <= usize::MAX
}

/// whether a cache can grid a screen of this size: `screen_size_ok`,
/// decided at run time
pub fn screen_size_fits(width: i32, height: i32) -> (ok: bool)
    ensures
        ok == screen_size_ok(width, height),
{
    let gw: i64 = if width >= 0 {
        (width / CELL_SIZE) as i64 + 1
    } else {
        -(((-(width as i64)) / (CELL_SIZE as i64)) as i64) + 1
    };
    let gh: i64 = if height >= 0 {
        (height / CELL_SIZE) as i64 + 1
    } else {
        -(((-(height as i64)) / (CELL_SIZE as i64)) as i64) + 1
    };
    if gw < 0 || gh < 0 {
        return false;
    }
    if gw * (CELL_SIZE as i64) > i32::MAX as i64 || gh * (CELL_SIZE as i64) > i32::MAX as i64 {
        return false;
    }
    assert(gw * gh <= 0x7fff_ffff * 0x7fff_ffff) by (nonlinear_arith)
        requires 0 <= gw <= 0x7fff_ffff, 0 <= gh <= 0x7fff_ffff;
    (gw as u128) * (gh as u128) <= usize::MAX as u128
}

impl RenCache {
    pub closed spec fn wf(&self) -> bool {
        &&& self.grid_w >= 0
        &&& self.grid_h >= 0
        &&& self.grid_w * CELL_SIZE <= i32::MAX
        &&& self.grid_h * CELL_SIZE <= i32::MAX
        &&& self.cells@.len() == self.grid_w * self.grid_h
        &&& self.cells_prev@.len() == self.grid_w * self.grid_h
        &&& self.cells@ == fresh_cells(self.grid_w * self.grid_h)
        &&& self.screen.x == 0
        &&& self.screen.y == 0
        &&& forall|k: int| 0 <= k < self.commands@.len() ==> (#[trigger] self.commands@[k]).wf()
    }

    pub fn new() -> (c: RenCache)
        ensures
            c.wf(),
            c@.commands == Seq::<Command>::empty(),
            c@.cells_prev == Seq::<u32>::empty(),
            c@.grid_w == 0,
            c@.grid_h == 0,
            c@.screen == (Rect { x: 0, y: 0, width: 0, height: 0 }),
            !c@.show_debug,
            c@.rng == 0x12345678,
    {
        let c = RenCache {
            commands: Vec::new(),
            cells: Vec::new(),
            cells_prev: Vec::new(),
            grid_w: 0,
            grid_h: 0,
            screen: Rect::new(0, 0, 0, 0),
            show_debug: false,
            rng: XorShift(0x12345678),
        };
        assert(c.cells@ =~= fresh_cells(0));
        assert(c.commands@.len() == 0);
        assert(c.grid_w * CELL_SIZE <= i32::MAX);
        assert(c.cells@.len() == c.grid_w * c.grid_h);
        assert(c.cells_prev@.len() == c.grid_w * c.grid_h);
        assert(c.cells@ == fresh_cells(c.grid_w * c.grid_h));
        assert(c.screen.x == 0);
        assert(forall|k: int| 0 <= k < c.commands@.len() ==> (#[trigger] c.commands@[k]).wf());
        assert(c.wf());
        c
    }

    pub fn show_debug(&mut self, enable: bool)
        requires
            old(self).wf(),
        ensures
            final(self).wf(),
            final(self)@ == (CacheView { show_debug: enable, ..old(self)@ }),
    {
        self.show_debug = enable;
    }

    /// forgets the previous frame: every cell will count as changed (unless
    /// its new hash happens to be u32::MAX)
    pub fn invalidate(&mut self)
        requires
            old(self).wf(),
        ensures
            final(self).wf(),
            final(self)@ == (CacheView {
                cells_prev: Seq::new(old(self)@.cells_prev.len(), |i: int| u32::MAX),
                ..old(self)@
            }),
    {
        let n = self.cells_prev.len();
        let mut i: usize = 0;
        while i < n
            invariant
                n == self.cells_prev@.len(),
                0 <= i <= n,
                self.cells_prev@.len() == old(self).cells_prev@.len(),
                forall|k: int| 0 <= k < i ==> self.cells_prev@[k] == u32::MAX,
                self.commands == old(self).commands,
                self.cells == old(self).cells,
                self.grid_w == old(self).grid_w,
                self.grid_h == old(self).grid_h,
                self.screen == old(self).screen,
                self.show_debug == old(self).show_debug,
                self.rng == old(self).rng,
            decreases n - i,
        {
            self.cells_prev.set(i, u32::MAX);
            i = i + 1;
        }
        assert(self.cells_prev@ =~= Seq::new(old(self)@.cells_prev.len(), |i: int| u32::MAX));
    }

    /// starts a frame for a screen of the given size; a new size rebuilds
    /// the grid, with every cell of the previous frame counted as changed
    pub fn begin_frame(&mut self, width: i32, height: i32)
        requires
            old(self).wf(),
            screen_size_ok(width, height),
        ensures
            final(self).wf(),
            (old(self)@.screen.width == width && old(self)@.screen.height == height) ==> final(self)@ == old(self)@,
            !(old(self)@.screen.width == width && old(self)@.screen.height == height) ==> final(self)@ == (CacheView {
                screen: Rect { x: 0, y: 0, width, height },
                grid_w: grid_cells(width as int),
                grid_h: grid_cells(height as int),
                cells_prev: Seq::new((grid_cells(width as int) * grid_cells(height as int)) as nat, |i: int| u32::MAX),
                ..old(self)@
            }),
    {
        if self.screen.width != width || self.screen.height != height {
            self.screen = Rect::new(0, 0, width, height);
            self.grid_w = cell_count(width);
            self.grid_h = cell_count(height);
            let n = self.grid_w as usize * self.grid_h as usize;
            self.cells.clear();
            self.cells.resize(n, HASH_INITIAL);
            self.cells_prev.clear();
            self.cells_prev.resize(n, u32::MAX);
            assert(self.cells@ =~= fresh_cells(self.grid_w * self.grid_h));
            assert(self.cells_prev@ =~= Seq::new(
                (grid_cells(width as int) * grid_cells(height as int)) as nat,
                |i: int| u32::MAX,
            ));
        }
    }

    /// records a clip change, cut to the screen
    pub fn set_clip_rect(&mut self, rect: Rect)
        requires
            old(self).wf(),
        ensures
            final(self).wf(),
            final(self)@ == (CacheView {
                commands: old(self)@.commands.push(Command::SetClip { rect: rect.spec_intersect(old(self)@.screen) }),
                ..old(self)@
            }),
    {
        let r = rect.intersect(self.screen);
        self.commands.push(Command::SetClip { rect: r });
        proof {
            assert forall|k: int| 0 <= k < self.commands@.len() implies (#[trigger] self.commands@[k]).wf() by {
                if k < old(self).commands@.len() {
                    assert(self.commands@[k] == old(self).commands@[k]);
                }
            }
        }
    }

    /// records a rect fill; one entirely off screen is dropped
    pub fn draw_rect(&mut self, rect: Rect, color: Color)
        requires
            old(self).wf(),
        ensures
            final(self).wf(),
            final(self)@ == if old(self)@.screen.spec_overlaps(rect) {
                CacheView { commands: old(self)@.commands.push(Command::DrawRect { rect, color }), ..old(self)@ }
            } else {
                old(self)@
            },
    {
        if !self.screen.overlaps(rect) {
            return;
        }
        self.commands.push(Command::DrawRect { rect, color });
        proof {
            assert forall|k: int| 0 <= k < self.commands@.len() implies (#[trigger] self.commands@[k]).wf() by {
                if k < old(self).commands@.len() {
                    assert(self.commands@[k] == old(self).commands@[k]);
                }
            }
        }
    }

    /// records a line of text drawn at (x, y), `glyphs[k]` being the k-th
    /// char rasterized in `font`; text whose rect is entirely off screen is
    /// dropped. returns the x position after the text
    pub fn draw_text(&mut self, font: &FontMetrics, text: &str, glyphs: Vec<Glyph>, x: i32, y: i32, color: Color) -> (end: i32)
        requires
            old(self).wf(),
            glyphs@.len() == text@.len(),
        ensures
            final(self).wf(),
            end == sat_i32(x + sat_i32(raw_width(text@, glyphs@, font.tab_advance, text@.len()))),
            ({
                let rect = text_rect(*font, text@, glyphs@, x, y);
                if old(self)@.screen.spec_overlaps(rect) {
                    &&& final(self)@.commands.len() == old(self)@.commands.len() + 1
                    &&& final(self)@.commands.drop_last() == old(self)@.commands
                    &&& final(self)@.commands.last() matches Command::DrawText {
                        font_id, text: t, chars, glyphs: g, x: tx, y: ty, rect: r, color: c, ascent, tab_advance,
                    } && font_id == font.id && t@ == text@ && chars@ == text@ && g == glyphs && tx == x && ty == y
                        && r == rect && c == color && ascent == font.ascent && tab_advance == font.tab_advance
                    &&& final(self)@ == (CacheView { commands: final(self)@.commands, ..old(self)@ })
                } else {
                    final(self)@ == old(self)@
                }
            }),
    {
        let chars = chars_of(text);
        let width = width_of(chars.as_slice(), glyphs.as_slice(), font.tab_advance);
        let mut rect = Rect::new(x, y, width, font.height);
        // the command is hashed into the cells this rect overlaps, so it
        // must cover every pixel the text can ink -- grow it by the true
        // ink box when glyphs escape their metrics (nerd font icons)
        match ink_box_of(chars.as_slice(), glyphs.as_slice(), font.ascent, font.tab_advance) {
            Some(ib) => {
                rect = rect.merge(Rect::new(sat_add(x, ib.x), sat_add(y, ib.y), ib.width, ib.height));
            },
            None => {},
        }
        if self.screen.overlaps(rect) {
            let owned = text.to_owned();
            let ghost old_cmds = self.commands@;
            self.commands.push(
                Command::DrawText {
                    font_id: font.id,
                    text: owned,
                    chars,
                    glyphs,
                    x,
                    y,
                    rect,
                    color,
                    ascent: font.ascent,
                    tab_advance: font.tab_advance,
                },
            );
            proof {
                assert(self.commands@.drop_last() =~= old_cmds);
                assert forall|k: int| 0 <= k < self.commands@.len() implies (#[trigger] self.commands@[k]).wf() by {
                    if k < old(self).commands@.len() {
                        assert(self.commands@[k] == old(self).commands@[k]);
                    }
                }
            }
        }
        sat_add(x, width)
    }
}

/// `grid_cells` in executable form
fn cell_count(v: i32) -> (n: i32)
    requires
        0 <= grid_cells(v as int) <= i32::MAX,
    ensures
        n == grid_cells(v as int),
{
    if v >= 0 {
        (v as u32 / CELL_SIZE as u32) as i32 + 1
    } else {
        1 - (((-(v as i64)) as u64 / CELL_SIZE as u64) as i32)
    }
}

/// `tdiv(v, CELL_SIZE)` for a non-negative v
fn cell_of(v: i32) -> (c: i32)
    requires
        v >= 0,
    ensures
        c == tdiv(v as int, CELL_SIZE as int),
        0 <= c <= v,
{
    (v as u32 / CELL_SIZE as u32) as i32
}

/// folds hash `h` into every cell of the grid that `r` touches
fn update_overlapping_cells(cells: &mut Vec<u32>, gw: i32, gh: i32, r: Rect, h: u32)
    requires
        gw >= 0,
        gh >= 0,
        old(cells)@.len() == gw * gh,
        r.x >= 0,
        r.y >= 0,
        r.width > 0,
        r.height > 0,
        r.x2() <= i32::MAX,
        r.y2() <= i32::MAX,
    ensures
        final(cells)@ == cells_touched(old(cells)@, gw as int, gh as int, r, h),
{
    let ghost f = |o: u32, cx: int, cy: int| if cell_hit(r, gw as int, gh as int, cx, cy) { fnv_spec(o, le_bytes(h)) } else { o };
    let ghost old_cells = cells@;
    if gw == 0 || gh == 0 {
        proof {
            assert(cells@.len() == 0) by (nonlinear_arith)
                requires cells@.len() == gw * gh, gw == 0 || gh == 0;
            assert(cells@ =~= cells_touched(old_cells, gw as int, gh as int, r, h));
        }
        return;
    }
    let len = cells.len();
    let x1 = cell_of(r.x);
    let y1 = cell_of(r.y);
    let x2a = cell_of(r.x + r.width);
    let y2a = cell_of(r.y + r.height);
    let x2 = if x2a < gw - 1 { x2a } else { gw - 1 };
    let y2 = if y2a < gh - 1 { y2a } else { gh - 1 };
    let mut y = y1;
    while y <= y2
        invariant
            gw >= 1,
            gh >= 1,
            len == gw * gh,
            cells@.len() == gw * gh,
            old_cells.len() == gw * gh,
            f == (|o: u32, cx: int, cy: int| if cell_hit(r, gw as int, gh as int, cx, cy) { fnv_spec(o, le_bytes(h)) } else { o }),
            0 <= x1,
            0 <= y1,
            x1 == max_int(tdiv(r.x as int, CELL_SIZE as int), 0),
            y1 == max_int(tdiv(r.y as int, CELL_SIZE as int), 0),
            x2 == min_int(tdiv(r.x2(), CELL_SIZE as int), gw - 1),
            y2 == min_int(tdiv(r.y2(), CELL_SIZE as int), gh - 1),
            y1 <= y <= y2 + 1 || (y == y1 && y1 > y2),
            forall|cx: int, cy: int|
                0 <= cx < gw && 0 <= cy < gh
                ==> #[trigger] pixel_of(cells@, gw as int, cx, cy)
                    == if cy < y && cell_hit(r, gw as int, gh as int, cx, cy) {
                        f(pixel_of(old_cells, gw as int, cx, cy), cx, cy)
                    } else {
                        pixel_of(old_cells, gw as int, cx, cy)
                    },
        decreases y2 + 1 - y,
    {
        let mut x = x1;
        while x <= x2
            invariant
                gw >= 1,
                gh >= 1,
                len == gw * gh,
                cells@.len() == gw * gh,
                old_cells.len() == gw * gh,
                f == (|o: u32, cx: int, cy: int| if cell_hit(r, gw as int, gh as int, cx, cy) { fnv_spec(o, le_bytes(h)) } else { o }),
                0 <= x1,
                0 <= y1,
                x1 == max_int(tdiv(r.x as int, CELL_SIZE as int), 0),
                y1 == max_int(tdiv(r.y as int, CELL_SIZE as int), 0),
                x2 == min_int(tdiv(r.x2(), CELL_SIZE as int), gw - 1),
                y2 == min_int(tdiv(r.y2(), CELL_SIZE as int), gh - 1),
                y1 <= y <= y2,
                x1 <= x <= x2 + 1 || (x == x1 && x1 > x2),
                forall|cx: int, cy: int|
                    0 <= cx < gw && 0 <= cy < gh
                    ==> #[trigger] pixel_of(cells@, gw as int, cx, cy)
                        == if (cy < y || (cy == y && cx < x)) && cell_hit(r, gw as int, gh as int, cx, cy) {
                            f(pixel_of(old_cells, gw as int, cx, cy), cx, cy)
                        } else {
                            pixel_of(old_cells, gw as int, cx, cy)
                        },
            decreases x2 + 1 - x,
        {
            proof {
                lemma_index_in_bounds(gw as int, gh as int, x as int, y as int);
            }
            let idx = (x as usize) + (y as usize) * (gw as usize);
            let ghost before = cells@;
            proof {
                assert(idx == y * gw + x);
                assert(pixel_of(before, gw as int, x as int, y as int) == before[idx as int]);
                assert(pixel_of(old_cells, gw as int, x as int, y as int) == old_cells[idx as int]);
            }
            let mut fh = Fnv(cells[idx]);
            fh.write_u32(h);
            cells.set(idx, fh.0);
            proof {
                let ghost xx = x as int;
                let ghost yy = y as int;
                lemma_paint_step(
                    before,
                    cells@,
                    old_cells,
                    gw as int,
                    gh as int,
                    xx,
                    yy,
                    f,
                    |cx: int, cy: int| (cy < yy || (cy == yy && cx < xx)) && cell_hit(r, gw as int, gh as int, cx, cy),
                    |cx: int, cy: int| (cy < yy || (cy == yy && cx < xx + 1)) && cell_hit(r, gw as int, gh as int, cx, cy),
                );
            }
            x = x + 1;
        }
        y = y + 1;
    }
    proof {
        assert forall|cx: int, cy: int|
            0 <= cx < gw && 0 <= cy < gh
            implies #[trigger] pixel_of(cells@, gw as int, cx, cy) == f(pixel_of(old_cells, gw as int, cx, cy), cx, cy)
        by {}
        lemma_pixels_from_coords(cells@, old_cells, gw as int, gh as int, f);
    }
}

/// merges `r` into the nearest earlier rect it overlaps, searching from the
/// end, or appends it
fn push_rect(rects: &mut Vec<Rect>, r: Rect)
    ensures
        final(rects)@ == push_rect_spec(old(rects)@, r),
{
    let ghost orig = rects@;
    let mut j = rects.len();
    let mut merged = false;
    while j > 0 && !merged
        invariant
            j <= orig.len(),
            !merged ==> rects@ == orig,
            !merged ==> push_from(orig, r, orig.len()) == push_from(orig, r, j as nat),
            merged ==> rects@ == push_from(orig, r, orig.len()),
        decreases j + if merged { 0int } else { 1int },
    {
        if rects[j - 1].overlaps(r) {
            let m = rects[j - 1].merge(r);
            rects.set(j - 1, m);
            assert(rects@ =~= push_from(orig, r, j as nat));
            merged = true;
        } else {
            j = j - 1;
        }
    }
    if !merged {
        rects.push(r);
    }
}

/// A rect merged or appended into a list of rects inside a grid leaves the
/// list inside the grid, provided the new rect is inside it too.
proof fn lemma_push_in_grid(rects: Seq<Rect>, r: Rect, gw: int, gh: int, n: nat)
    requires
        n <= rects.len(),
        in_grid(r, gw, gh),
        forall|k: int| 0 <= k < rects.len() ==> in_grid(#[trigger] rects[k], gw, gh),
    ensures
        forall|k: int|
            0 <= k < push_from(rects, r, n).len() ==> in_grid(#[trigger] push_from(rects, r, n)[k], gw, gh),
    decreases n,
{
    if n == 0 {
        assert(push_from(rects, r, n) == rects.push(r));
        assert forall|k: int| 0 <= k < rects.push(r).len() implies in_grid(#[trigger] rects.push(r)[k], gw, gh) by {
            if k < rects.len() {
                assert(rects.push(r)[k] == rects[k]);
            }
        }
    } else if rects[n - 1].spec_overlaps(r) {
        let m = rects[n - 1].spec_merge(r);
        assert(push_from(rects, r, n) == rects.update(n - 1, m));
        assert(in_grid(rects[n - 1], gw, gh));
        assert(in_grid(m, gw, gh));
        assert forall|k: int| 0 <= k < rects.update(n - 1, m).len() implies in_grid(
            #[trigger] rects.update(n - 1, m)[k],
            gw,
            gh,
        ) by {
            if k != n - 1 {
                assert(rects.update(n - 1, m)[k] == rects[k]);
            }
        }
    } else {
        assert(push_from(rects, r, n) == push_from(rects, r, (n - 1) as nat));
        lemma_push_in_grid(rects, r, gw, gh, (n - 1) as nat);
    }
}

/// hashes every command into the cells its rect, clipped by the clip in
/// force, touches
fn hash_commands(cells: &mut Vec<u32>, commands: &Vec<Command>, screen: Rect, gw: i32, gh: i32)
    requires
        gw >= 0,
        gh >= 0,
        old(cells)@.len() == gw * gh,
        screen.x == 0,
        screen.y == 0,
        forall|i: int| 0 <= i < commands@.len() ==> (#[trigger] commands@[i]).wf(),
    ensures
        final(cells)@ == hashed_cells(old(cells)@, commands@, screen, gw as int, gh as int, commands@.len()),
        final(cells)@.len() == gw * gh,
{
    let ghost start = cells@;
    let ghost cmds = commands@;
    let mut cr = screen;
    let mut k: usize = 0;
    while k < commands.len()
        invariant
            cmds == commands@,
            forall|i: int| 0 <= i < cmds.len() ==> (#[trigger] cmds[i]).wf(),
            0 <= k <= cmds.len(),
            gw >= 0,
            gh >= 0,
            cells@.len() == gw * gh,
            cells@ == hashed_cells(start, cmds, screen, gw as int, gh as int, k as nat),
            cr == clip_after(cmds, screen, k as nat),
            cr.x >= 0,
            cr.y >= 0,
            cr.x2() <= i32::MAX,
            cr.y2() <= i32::MAX,
        decreases cmds.len() - k,
    {
        let cmd = &commands[k];
        assert(cmds[k as int].wf());
        match cmd {
            Command::SetClip { rect } => {
                cr = *rect;
            },
            _ => {},
        }
        let r = cmd.rect().intersect(cr);
        if !r.is_empty() {
            let h = cmd.hash();
            update_overlapping_cells(cells, gw, gh, r, h);
        }
        k = k + 1;
    }
}

/// walks the grid in row-major order, merging every cell whose hash
/// differs from the previous frame's into the dirty rects, and resets the
/// previous hashes to the initial state as it goes
fn collect_dirty(cells: &Vec<u32>, prev: &mut Vec<u32>, gw: i32, gh: i32) -> (rects: Vec<Rect>)
    requires
        gw >= 0,
        gh >= 0,
        cells@.len() == gw * gh,
        old(prev)@.len() == gw * gh,
    ensures
        rects@ == dirty_rects(cells@, old(prev)@, gw as int, (gw * gh) as nat),
        final(prev)@ == fresh_cells(gw * gh),
        forall|i: int| 0 <= i < rects@.len() ==> in_grid(#[trigger] rects@[i], gw as int, gh as int),
{
    let ghost prev_old = prev@;
    let ghost n = gw * gh;
    let len = prev.len();
    let mut rects: Vec<Rect> = Vec::new();
    let mut y: i32 = 0;
    while y < gh
        invariant
            gw >= 0,
            gh >= 0,
            n == gw * gh,
            len == n,
            cells@.len() == n,
            prev_old.len() == n,
            prev@.len() == n,
            0 <= y <= gh,
            y * gw <= n,
            rects@ == dirty_rects(cells@, prev_old, gw as int, (y * gw) as nat),
            forall|i: int| 0 <= i < y * gw ==> prev@[i] == HASH_INITIAL,
            forall|i: int| y * gw <= i < n ==> prev@[i] == prev_old[i],
            forall|i: int| 0 <= i < rects@.len() ==> in_grid(#[trigger] rects@[i], gw as int, gh as int),
        decreases gh - y,
    {
        let mut x: i32 = 0;
        while x < gw
            invariant
                gw >= 0,
                gh >= 1,
                n == gw * gh,
                len == n,
                cells@.len() == n,
                prev_old.len() == n,
                prev@.len() == n,
                0 <= y < gh,
                0 <= x <= gw,
                rects@ == dirty_rects(cells@, prev_old, gw as int, (y * gw + x) as nat),
                forall|i: int| 0 <= i < y * gw + x ==> prev@[i] == HASH_INITIAL,
                forall|i: int| y * gw + x <= i < n ==> prev@[i] == prev_old[i],
                forall|i: int| 0 <= i < rects@.len() ==> in_grid(#[trigger] rects@[i], gw as int, gh as int),
            decreases gw - x,
        {
            proof {
                lemma_index_in_bounds(gw as int, gh as int, x as int, y as int);
            }
            let idx = (x as usize) + (y as usize) * (gw as usize);
            let ghost i = y * gw + x;
            assert(idx == i);
            proof {
                lemma_coords(gw as int, gh as int, i);
                lemma_index_injective(gw as int, i % (gw as int), i / (gw as int), x as int, y as int);
                assert(cell_rect(i, gw as int) == (Rect { x, y, width: 1, height: 1 }));
                assert(prev@[i] == prev_old[i]);
            }
            if cells[idx] != prev[idx] {
                let ghost before = rects@;
                proof {
                    lemma_push_in_grid(before, Rect { x, y, width: 1, height: 1 }, gw as int, gh as int, before.len());
                }
                push_rect(&mut rects, Rect::new(x, y, 1, 1));
            }
            prev.set(idx, HASH_INITIAL);
            x = x + 1;
        }
        proof {
            assert(y * gw + gw == (y + 1) * gw) by (nonlinear_arith);
            assert((y + 1) * gw <= n) by (nonlinear_arith)
                requires y + 1 <= gh, n == gw * gh, gw >= 0;
        }
        y = y + 1;
    }
    proof {
        assert(y * gw == n) by (nonlinear_arith)
            requires y == gh, n == gw * gh;
        assert(prev@ =~= fresh_cells(n));
    }
    rects
}

/// scales the cell rects to pixels, cuts them to the screen and drops the
/// empty ones
fn to_pixel_rects(cell_rects: &Vec<Rect>, screen: Rect, gw: i32, gh: i32) -> (rects: Vec<Rect>)
    requires
        gw * CELL_SIZE <= i32::MAX,
        gh * CELL_SIZE <= i32::MAX,
        forall|i: int| 0 <= i < cell_rects@.len() ==> in_grid(#[trigger] cell_rects@[i], gw as int, gh as int),
    ensures
        rects@ == expand(cell_rects@, screen, cell_rects@.len()),
{
    let mut rects: Vec<Rect> = Vec::new();
    let mut j: usize = 0;
    while j < cell_rects.len()
        invariant
            0 <= j <= cell_rects@.len(),
            gw * CELL_SIZE <= i32::MAX,
            gh * CELL_SIZE <= i32::MAX,
            forall|i: int| 0 <= i < cell_rects@.len() ==> in_grid(#[trigger] cell_rects@[i], gw as int, gh as int),
            rects@ == expand(cell_rects@, screen, j as nat),
        decreases cell_rects@.len() - j,
    {
        let r = cell_rects[j];
        assert(in_grid(cell_rects@[j as int], gw as int, gh as int));
        let p = Rect::new(r.x * CELL_SIZE, r.y * CELL_SIZE, r.width * CELL_SIZE, r.height * CELL_SIZE).intersect(screen);
        if !p.is_empty() {
            rects.push(p);
        }
        j = j + 1;
    }
    rects
}

/// replays all of a frame's commands into `fb`, confined to the dirty rect `r`
fn replay(fb: &mut Framebuffer, commands: &Vec<Command>, r: Rect)
    requires
        old(fb).wf(),
        forall|i: int| 0 <= i < commands@.len() ==> (#[trigger] commands@[i]).wf(),
    ensures
        final(fb).wf(),
        final(fb).width == old(fb).width,
        final(fb).height == old(fb).height,
        ({
            let st = replay_cmds(
                old(fb).pixels@,
                clipped(old(fb).width, old(fb).height, r),
                r,
                old(fb).width,
                old(fb).height,
                commands@,
                r,
                commands@.len(),
            );
            &&& final(fb).pixels@ == st.0
            &&& final(fb).clip_rect() == st.1
        }),
{
    let ghost cmds = commands@;
    let ghost fbw = fb.width;
    let ghost fbh = fb.height;
    fb.set_clip(r);
    let mut cr = r;
    let ghost p0 = fb.pixels@;
    let ghost c0 = fb.clip_rect();
    let mut c: usize = 0;
    while c < commands.len()
        invariant
            fb.wf(),
            fb.width == fbw,
            fb.height == fbh,
            cmds == commands@,
            forall|i: int| 0 <= i < cmds.len() ==> (#[trigger] cmds[i]).wf(),
            0 <= c <= cmds.len(),
            ({
                let st = replay_cmds(p0, c0, r, fbw, fbh, cmds, r, c as nat);
                &&& fb.pixels@ == st.0
                &&& fb.clip_rect() == st.1
                &&& cr == st.2
            }),
        decreases cmds.len() - c,
    {
        assert(cmds[c as int].wf());
        match &commands[c] {
            Command::SetClip { rect } => {
                cr = rect.intersect(r);
                fb.set_clip(cr);
            },
            Command::DrawRect { rect, color } => {
                fb.draw_rect(*rect, *color);
            },
            Command::DrawText { chars, glyphs, x, y, rect, color, ascent, tab_advance, .. } => {
                // painting outside the hashed rect would leave stale pixels
                // the cache can never invalidate; the rect covers all ink,
                // so this clip is normally invisible
                fb.set_clip(rect.intersect(cr));
                fb.draw_text(chars.as_slice(), glyphs.as_slice(), *ascent, *tab_advance, *x, *y, *color);
                fb.set_clip(cr);
            },
        }
        c = c + 1;
    }
}

/// replays the frame over every dirty rect in turn, tinting each one with
/// the next overlay color when the overlay is on
fn replay_all(fb: &mut Framebuffer, commands: &Vec<Command>, rects: &Vec<Rect>, show_debug: bool, rng: &mut XorShift)
    requires
        old(fb).wf(),
        forall|i: int| 0 <= i < commands@.len() ==> (#[trigger] commands@[i]).wf(),
    ensures
        final(fb).wf(),
        final(fb).width == old(fb).width,
        final(fb).height == old(fb).height,
        ({
            let st = replay_rects(
                old(fb).pixels@,
                old(fb).clip_rect(),
                old(rng).0,
                old(fb).width,
                old(fb).height,
                commands@,
                rects@,
                show_debug,
                rects@.len(),
            );
            &&& final(fb).pixels@ == st.0
            &&& final(fb).clip_rect() == st.1
            &&& final(rng).0 == st.2
        }),
{
    let ghost fbw = fb.width;
    let ghost fbh = fb.height;
    let ghost cmds = commands@;
    let mut k: usize = 0;
    while k < rects.len()
        invariant
            fb.wf(),
            fb.width == fbw,
            fb.height == fbh,
            fbw == old(fb).width,
            fbh == old(fb).height,
            cmds == commands@,
            forall|i: int| 0 <= i < cmds.len() ==> (#[trigger] cmds[i]).wf(),
            0 <= k <= rects@.len(),
            ({
                let st = replay_rects(old(fb).pixels@, old(fb).clip_rect(), old(rng).0, fbw, fbh, cmds, rects@, show_debug, k as nat);
                &&& fb.pixels@ == st.0
                &&& fb.clip_rect() == st.1
                &&& rng.0 == st.2
            }),
        decreases rects@.len() - k,
    {
        let r = rects[k];
        replay(fb, commands, r);
        if show_debug {
            let n = rng.next();
            let color = Color { r: n as u8, g: (n >> 8u32) as u8, b: (n >> 16u32) as u8, a: 50 };
            // reset the clip first so the tint always covers
            // the whole dirty rect
            fb.set_clip(r);
            fb.draw_rect(r, color);
        }
        k = k + 1;
    }
}

impl RenCache {
    /// hashes the frame's commands into the grid, turns the cells that
    /// changed since the previous frame into dirty rects (merging
    /// overlapping ones), replays the whole frame into `fb` over each dirty
    /// rect, and returns those rects for presenting. the frame's hashes
    /// become the previous frame's
    pub fn end_frame(&mut self, fb: &mut Framebuffer) -> (rects: Vec<Rect>)
        requires
            old(self).wf(),
            old(fb).wf(),
        ensures
            final(self).wf(),
            final(fb).wf(),
            final(fb).width == old(fb).width,
            final(fb).height == old(fb).height,
            ({
                let v = old(self)@;
                let hashed = hashed_cells(fresh_cells(v.grid_w * v.grid_h), v.commands, v.screen, v.grid_w, v.grid_h, v.commands.len());
                let cell_rects = dirty_rects(hashed, v.cells_prev, v.grid_w, (v.grid_w * v.grid_h) as nat);
                let replayed = replay_rects(
                    old(fb).pixels@,
                    old(fb).clip_rect(),
                    v.rng,
                    old(fb).width,
                    old(fb).height,
                    v.commands,
                    rects@,
                    v.show_debug,
                    rects@.len(),
                );
                &&& rects@ == expand(cell_rects, v.screen, cell_rects.len())
                &&& final(fb).pixels@ == replayed.0
                &&& final(fb).clip_rect() == replayed.1
                &&& final(self)@ == (CacheView {
                    commands: Seq::empty(),
                    cells_prev: hashed,
                    rng: replayed.2,
                    ..v
                })
            }),
    {
        let ghost v = self@;
        let mut commands: Vec<Command> = Vec::new();
        std::mem::swap(&mut commands, &mut self.commands);
        let gw = self.grid_w;
        let gh = self.grid_h;
        let ghost cmds = commands@;

        // hash every command into the cells it touches
        hash_commands(&mut self.cells, &commands, self.screen, gw, gh);

        // a rect for each cell changed since the last frame, merged as we go
        let cell_rects = collect_dirty(&self.cells, &mut self.cells_prev, gw, gh);

        // expand rects from cells to pixels
        let rects = to_pixel_rects(&cell_rects, self.screen, gw, gh);

        // redraw updated regions
        replay_all(fb, &commands, &rects, self.show_debug, &mut self.rng);

        // swap cell buffers: the fresh grid is ready for the next frame
        std::mem::swap(&mut self.cells, &mut self.cells_prev);
        proof {
            assert(self.commands@.len() == 0);
            assert(forall|i: int| 0 <= i < self.commands@.len() ==> (#[trigger] self.commands@[i]).wf());
        }
        rects
    }
}

impl Default for RenCache {
    /// an empty cache, as `new` makes it
    fn default() -> (c: RenCache)
        ensures
            c.wf(),
            c@.commands == Seq::<Command>::empty(),
            c@.cells_prev == Seq::<u32>::empty(),
            c@.grid_w == 0,
            c@.grid_h == 0,
            c@.screen == (Rect { x: 0, y: 0, width: 0, height: 0 }),
            !c@.show_debug,
            c@.rng == 0x12345678,
    {
        RenCache::new()
    }
}

/// When a frame's cell hashes equal the previous frame's, no cell is dirty:
/// repeating a frame -- the same commands on the same screen, each frame
/// hashing from a fresh grid -- redraws nothing.
pub proof fn lemma_repeated_frame_is_free(cmds: Seq<Command>, screen: Rect, gw: int, gh: int)
    ensures
        ({
            let h = hashed_cells(fresh_cells(gw * gh), cmds, screen, gw, gh, cmds.len());
            let cell_rects = dirty_rects(h, h, gw, (gw * gh) as nat);
            &&& cell_rects == Seq::<Rect>::empty()
            &&& expand(cell_rects, screen, cell_rects.len()) == Seq::<Rect>::empty()
        }),
{
    let h = hashed_cells(fresh_cells(gw * gh), cmds, screen, gw, gh, cmds.len());
    lemma_no_change_no_rects(h, gw, (gw * gh) as nat);
}

proof fn lemma_no_change_no_rects(h: Seq<u32>, gw: int, n: nat)
    ensures
        dirty_rects(h, h, gw, n) == Seq::<Rect>::empty(),
    decreases n,
{
    if n > 0 {
        lemma_no_change_no_rects(h, gw, (n - 1) as nat);
    }
}

/// whether some rect of `rects` contains the cell (cx, cy)
pub open spec fn covered(rects: Seq<Rect>, cx: int, cy: int) -> bool {
    exists|k: int| 0 <= k < rects.len() && (#[trigger] rects[k]).contains(cx, cy)
}

proof fn lemma_push_covers(rects: Seq<Rect>, r: Rect, n: nat, gw: int, gh: int, cx: int, cy: int)
    requires
        n <= rects.len(),
        in_grid(r, gw, gh),
        forall|k: int| 0 <= k < rects.len() ==> in_grid(#[trigger] rects[k], gw, gh),
        gw <= i32::MAX,
        gh <= i32::MAX,
        covered(rects, cx, cy) || r.contains(cx, cy),
    ensures
        covered(push_from(rects, r, n), cx, cy),
    decreases n,
{
    if n == 0 {
        let p = rects.push(r);
        if r.contains(cx, cy) {
            assert(p[rects.len() as int] == r);
        } else {
            let k = choose|k: int| 0 <= k < rects.len() && (#[trigger] rects[k]).contains(cx, cy);
            assert(p[k] == rects[k]);
        }
    } else if rects[n - 1].spec_overlaps(r) {
        let m = rects[n - 1].spec_merge(r);
        let u = rects.update(n - 1, m);
        assert(in_grid(rects[n - 1], gw, gh));
        if r.contains(cx, cy) {
            crate::renderer::lemma_merge_covers(rects[n - 1], r, cx, cy);
            assert(u[n - 1] == m);
        } else {
            let k = choose|k: int| 0 <= k < rects.len() && (#[trigger] rects[k]).contains(cx, cy);
            if k == n - 1 {
                crate::renderer::lemma_merge_covers(rects[n - 1], r, cx, cy);
                assert(u[n - 1] == m);
            } else {
                assert(u[k] == rects[k]);
            }
        }
    } else {
        lemma_push_covers(rects, r, (n - 1) as nat, gw, gh, cx, cy);
    }
}

proof fn lemma_dirty_in_grid(cells: Seq<u32>, prev: Seq<u32>, gw: int, gh: int, n: nat)
    requires
        gw >= 1,
        gh >= 1,
        gw <= i32::MAX,
        gh <= i32::MAX,
        n <= gw * gh,
    ensures
        forall|k: int|
            0 <= k < dirty_rects(cells, prev, gw, n).len() ==> in_grid(
                #[trigger] dirty_rects(cells, prev, gw, n)[k],
                gw,
                gh,
            ),
    decreases n,
{
    if n > 0 {
        lemma_dirty_in_grid(cells, prev, gw, gh, (n - 1) as nat);
        let rs = dirty_rects(cells, prev, gw, (n - 1) as nat);
        if cells[n - 1] != prev[n - 1] {
            lemma_coords(gw, gh, n - 1);
            assert(in_grid(cell_rect(n - 1, gw), gw, gh));
            lemma_push_in_grid(rs, cell_rect(n - 1, gw), gw, gh, rs.len());
            assert(dirty_rects(cells, prev, gw, n) == push_rect_spec(rs, cell_rect(n - 1, gw)));
        } else {
            assert(dirty_rects(cells, prev, gw, n) == rs);
        }
    }
}

/// Every cell whose hash changed lies in one of the dirty rects: merging
/// never loses a cell.
pub proof fn lemma_changed_cells_are_covered(cells: Seq<u32>, prev: Seq<u32>, gw: int, gh: int, i: int)
    requires
        1 <= gw,
        1 <= gh,
        gw * CELL_SIZE <= i32::MAX,
        gh * CELL_SIZE <= i32::MAX,
        cells.len() == gw * gh,
        prev.len() == gw * gh,
        0 <= i < gw * gh,
        cells[i] != prev[i],
    ensures
        covered(dirty_rects(cells, prev, gw, (gw * gh) as nat), i % gw, i / gw),
{
    lemma_covered_from(cells, prev, gw, gh, i, (gw * gh) as nat);
}

proof fn lemma_covered_from(cells: Seq<u32>, prev: Seq<u32>, gw: int, gh: int, i: int, n: nat)
    requires
        1 <= gw,
        1 <= gh,
        gw <= i32::MAX,
        gh <= i32::MAX,
        0 <= i < n,
        n <= gw * gh,
        cells[i] != prev[i],
    ensures
        covered(dirty_rects(cells, prev, gw, n), i % gw, i / gw),
    decreases n,
{
    lemma_coords(gw, gh, i);
    let rs = dirty_rects(cells, prev, gw, (n - 1) as nat);
    lemma_dirty_in_grid(cells, prev, gw, gh, (n - 1) as nat);
    lemma_coords(gw, gh, n - 1);
    if i == n - 1 {
        assert(cell_rect(i, gw).contains(i % gw, i / gw));
        lemma_push_covers(rs, cell_rect(n - 1, gw), rs.len(), gw, gh, i % gw, i / gw);
    } else {
        lemma_covered_from(cells, prev, gw, gh, i, (n - 1) as nat);
        if cells[n - 1] != prev[n - 1] {
            lemma_push_covers(rs, cell_rect(n - 1, gw), rs.len(), gw, gh, i % gw, i / gw);
        }
    }
}

proof fn lemma_expand_keeps(rects: Seq<Rect>, screen: Rect, n: nat, k: int)
    requires
        0 <= k < n <= rects.len(),
        !to_pixels(rects[k], screen).spec_is_empty(),
    ensures
        exists|j: int| 0 <= j < expand(rects, screen, n).len() && #[trigger] expand(rects, screen, n)[j] == to_pixels(rects[k], screen),
    decreases n,
{
    if k == n - 1 {
        let rs = expand(rects, screen, (n - 1) as nat);
        assert(expand(rects, screen, n)[rs.len() as int] == to_pixels(rects[k], screen));
    } else {
        lemma_expand_keeps(rects, screen, (n - 1) as nat, k);
        let rs = expand(rects, screen, (n - 1) as nat);
        let j = choose|j: int| 0 <= j < rs.len() && #[trigger] rs[j] == to_pixels(rects[k], screen);
        assert(expand(rects, screen, n)[j] == rs[j]);
    }
}

/// Every on-screen pixel of a cell whose hash changed since the previous
/// frame lies inside one of the pixel rects `end_frame` returns: a change
/// is never left off the screen.
pub proof fn lemma_changes_are_redrawn(
    cells: Seq<u32>,
    prev: Seq<u32>,
    gw: int,
    gh: int,
    screen: Rect,
    px: int,
    py: int,
)
    requires
        1 <= gw,
        1 <= gh,
        gw * CELL_SIZE <= i32::MAX,
        gh * CELL_SIZE <= i32::MAX,
        cells.len() == gw * gh,
        prev.len() == gw * gh,
        0 <= px < gw * CELL_SIZE,
        0 <= py < gh * CELL_SIZE,
        screen.contains(px, py),
        cells[(py / CELL_SIZE as int) * gw + px / CELL_SIZE as int] != prev[(py / CELL_SIZE as int) * gw + px / CELL_SIZE as int],
    ensures
        ({
            let cell_rects = dirty_rects(cells, prev, gw, (gw * gh) as nat);
            let rects = expand(cell_rects, screen, cell_rects.len());
            exists|j: int| 0 <= j < rects.len() && (#[trigger] rects[j]).contains(px, py)
        }),
{
    let cx = px / CELL_SIZE as int;
    let cy = py / CELL_SIZE as int;
    let i = cy * gw + cx;
    assert(0 <= cx < gw) by (nonlinear_arith)
        requires cx == px / 96, 0 <= px < gw * 96;
    assert(0 <= cy < gh) by (nonlinear_arith)
        requires cy == py / 96, 0 <= py < gh * 96;
    crate::renderer::lemma_index_in_bounds(gw, gh, cx, cy);
    lemma_coords(gw, gh, i);
    lemma_index_injective(gw, i % gw, i / gw, cx, cy);
    lemma_changed_cells_are_covered(cells, prev, gw, gh, i);
    let cell_rects = dirty_rects(cells, prev, gw, (gw * gh) as nat);
    lemma_dirty_in_grid(cells, prev, gw, gh, (gw * gh) as nat);
    let k = choose|k: int| 0 <= k < cell_rects.len() && (#[trigger] cell_rects[k]).contains(cx, cy);
    let r = cell_rects[k];
    assert(in_grid(r, gw, gh));
    let big = Rect {
        x: (r.x * CELL_SIZE) as i32,
        y: (r.y * CELL_SIZE) as i32,
        width: (r.width * CELL_SIZE) as i32,
        height: (r.height * CELL_SIZE) as i32,
    };
    assert(big.contains(px, py)) by (nonlinear_arith)
        requires
            r.x <= cx < r.x + r.width,
            r.y <= cy < r.y + r.height,
            cx == px / 96,
            cy == py / 96,
            0 <= px,
            0 <= py,
            0 <= r.x,
            0 <= r.y,
            r.x2() <= gw,
            r.y2() <= gh,
            gw * 96 <= i32::MAX,
            gh * 96 <= i32::MAX,
            big.x == r.x * 96,
            big.y == r.y * 96,
            big.width == r.width * 96,
            big.height == r.height * 96,
    ;
    crate::renderer::lemma_intersect_is_common_part(big, screen, px, py);
    lemma_expand_keeps(cell_rects, screen, cell_rects.len(), k);
}

} // verus!
