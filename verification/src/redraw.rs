//! why the draw-command cache is invisible.
//!
//! the cache redraws only the cells whose hash changed since the previous
//! frame. its promise: as long as every frame paints the whole screen (the
//! editor's root view fills the background first), a frame
//! drawn after any other frame leaves exactly the pixels it leaves when
//! drawn on a fresh cache. the promise can only fail where a hash
//! collides -- a cell whose hash repeats although other commands touched
//! it -- so it is stated for frames without such collisions.
//!
//! the proof goes pixel by pixel: replaying a frame over a dirty rect
//! leaves, at each pixel of the rect, a value that depends only on the
//! frame (`frame_pixel`), and nothing outside the rect; and that value
//! depends only on the commands that touched the pixel's cell.

use vstd::prelude::*;

use crate::font::Glyph;
use crate::rencache::{
    CELL_SIZE, Command, cell_hit, clip_after, clipped, dirty_rects, expand, fresh_cells, grid_cells,
    hashed_cells, lemma_changes_are_redrawn, replay_cmds, replay_rects, screen_size_ok, tdiv,
};
use crate::renderer::{
    Color, Rect, blend_spec, lemma_blend_opaque, lemma_intersect_is_common_part, mask_area,
    mask_paint, mask_paint_all, paint_all, pen_at, rect_paint, rect_paint_all, sat_i32, text_paint,
};

verus! {

/// what drawing the first k chars of a line of text leaves at the pixel
/// (px, py), starting from the value `v`, under `clip`
pub open spec fn text_px(
    v: u32,
    clip: Rect,
    px: int,
    py: int,
    text: Seq<char>,
    glyphs: Seq<Glyph>,
    ascent: i32,
    tab: i32,
    x: i32,
    y: i32,
    color: Color,
    k: nat,
) -> u32
    decreases k,
{
    if k == 0 {
        v
    } else {
        let prev = text_px(v, clip, px, py, text, glyphs, ascent, tab, x, y, color, (k - 1) as nat);
        if text[k - 1] == '\t' {
            prev
        } else {
            let g = glyphs[k - 1];
            let mask = g.mask@;
            let gx = sat_i32(pen_at(text, glyphs, tab, x, (k - 1) as nat) + g.left);
            let gy = sat_i32(sat_i32(y + ascent) - g.top);
            if color.a == 0 || mask.len() == 0 || g.width <= 0 {
                prev
            } else {
                mask_paint(prev, mask, g.width as int, gx as int, gy as int, mask_area(mask.len() as int, g.width, gx, gy, clip), color, px, py)
            }
        }
    }
}

/// text painting works pixel by pixel
proof fn lemma_text_paint_at(
    old: Seq<u32>,
    width: int,
    clip: Rect,
    text: Seq<char>,
    glyphs: Seq<Glyph>,
    ascent: i32,
    tab: i32,
    x: i32,
    y: i32,
    color: Color,
    k: nat,
    i: int,
)
    requires
        width >= 1,
        0 <= i < old.len(),
    ensures
        text_paint(old, width, clip, text, glyphs, ascent, tab, x, y, color, k).len() == old.len(),
        text_paint(old, width, clip, text, glyphs, ascent, tab, x, y, color, k)[i] == text_px(
            old[i],
            clip,
            i % width,
            i / width,
            text,
            glyphs,
            ascent,
            tab,
            x,
            y,
            color,
            k,
        ),
    decreases k,
{
    if k > 0 {
        lemma_text_paint_at(old, width, clip, text, glyphs, ascent, tab, x, y, color, (k - 1) as nat, i);
    }
}

/// at one pixel, text painting only asks whether the clip holds it
proof fn lemma_text_px_clip(
    v: u32,
    c1: Rect,
    c2: Rect,
    px: int,
    py: int,
    text: Seq<char>,
    glyphs: Seq<Glyph>,
    ascent: i32,
    tab: i32,
    x: i32,
    y: i32,
    color: Color,
    k: nat,
)
    requires
        c1.contains(px, py) == c2.contains(px, py),
    ensures
        text_px(v, c1, px, py, text, glyphs, ascent, tab, x, y, color, k) == text_px(
            v,
            c2,
            px,
            py,
            text,
            glyphs,
            ascent,
            tab,
            x,
            y,
            color,
            k,
        ),
    decreases k,
{
    if k > 0 {
        lemma_text_px_clip(v, c1, c2, px, py, text, glyphs, ascent, tab, x, y, color, (k - 1) as nat);
        let g = glyphs[k - 1];
        let gx = sat_i32(pen_at(text, glyphs, tab, x, (k - 1) as nat) + g.left);
        let gy = sat_i32(sat_i32(y + ascent) - g.top);
        let glyph = Rect { x: gx, y: gy, width: g.width, height: crate::renderer::mask_rows(g.mask@.len() as int, g.width as int) as i32 };
        lemma_intersect_is_common_part(glyph, c1, px, py);
        lemma_intersect_is_common_part(glyph, c2, px, py);
    }
}

/// text paints nothing outside its clip
proof fn lemma_text_px_outside(
    v: u32,
    clip: Rect,
    px: int,
    py: int,
    text: Seq<char>,
    glyphs: Seq<Glyph>,
    ascent: i32,
    tab: i32,
    x: i32,
    y: i32,
    color: Color,
    k: nat,
)
    requires
        !clip.contains(px, py),
    ensures
        text_px(v, clip, px, py, text, glyphs, ascent, tab, x, y, color, k) == v,
    decreases k,
{
    if k > 0 {
        lemma_text_px_outside(v, clip, px, py, text, glyphs, ascent, tab, x, y, color, (k - 1) as nat);
        let g = glyphs[k - 1];
        let gx = sat_i32(pen_at(text, glyphs, tab, x, (k - 1) as nat) + g.left);
        let gy = sat_i32(sat_i32(y + ascent) - g.top);
        let glyph = Rect { x: gx, y: gy, width: g.width, height: crate::renderer::mask_rows(g.mask@.len() as int, g.width as int) as i32 };
        lemma_intersect_is_common_part(glyph, clip, px, py);
    }
}

/// a rect that holds the pixel (px, py) when `inside`, and holds no
/// pixel otherwise
pub open spec fn spot(inside: bool, px: int, py: int) -> Rect {
    Rect { x: px as i32, y: py as i32, width: if inside { 1 } else { 0 }, height: 1 }
}

/// replaying the first k commands of a frame at the single pixel (px, py):
/// its value, and whether the frame's current clip holds it. `v` and
/// `inclip` are where the replay starts; `inr` says whether the dirty rect
/// being replayed holds the pixel (a clip never reaches past that rect)
pub open spec fn pix(cmds: Seq<Command>, k: nat, px: int, py: int, v: u32, inclip: bool, inr: bool) -> (u32, bool)
    decreases k,
{
    if k == 0 {
        (v, inclip)
    } else {
        let (v1, b1) = pix(cmds, (k - 1) as nat, px, py, v, inclip, inr);
        match cmds[k - 1] {
            Command::SetClip { rect } => (v1, inr && rect.contains(px, py)),
            Command::DrawRect { rect, color } => (
                if color.a == 0 || !(b1 && rect.contains(px, py)) {
                    v1
                } else {
                    blend_spec(v1, color.r, color.g, color.b, color.a)
                },
                b1,
            ),
            Command::DrawText { chars, glyphs, x, y, rect, color, ascent, tab_advance, .. } => (
                text_px(
                    v1,
                    spot(b1 && rect.contains(px, py), px, py),
                    px,
                    py,
                    chars@,
                    glyphs@,
                    ascent,
                    tab_advance,
                    x,
                    y,
                    color,
                    chars@.len(),
                ),
                b1,
            ),
        }
    }
}

/// the value a frame leaves at the pixel (px, py) of a dirty rect
pub open spec fn frame_pixel(cmds: Seq<Command>, px: int, py: int) -> u32 {
    pix(cmds, cmds.len(), px, py, 0, true, true).0
}

/// replaying a frame over the dirty rect `r`, at one pixel of the
/// framebuffer, is `pix`: the framebuffer clip is always the frame's clip
/// cut to the screen, and that clip never reaches past `r`
proof fn lemma_replay_cmds_at(
    pixels: Seq<u32>,
    cr0: Rect,
    fbw: i32,
    fbh: i32,
    cmds: Seq<Command>,
    r: Rect,
    k: nat,
    i: int,
)
    requires
        fbw >= 1,
        fbh >= 1,
        pixels.len() == fbw * fbh,
        0 <= i < pixels.len(),
        k <= cmds.len(),
        cr0.contains(i % (fbw as int), i / (fbw as int)) ==> r.contains(i % (fbw as int), i / (fbw as int)),
    ensures
        ({
            let out = replay_cmds(pixels, clipped(fbw, fbh, cr0), cr0, fbw, fbh, cmds, r, k);
            let (px, py) = (i % (fbw as int), i / (fbw as int));
            let want = pix(cmds, k, px, py, pixels[i], cr0.contains(px, py), r.contains(px, py));
            &&& out.0.len() == pixels.len()
            &&& out.1 == clipped(fbw, fbh, out.2)
            &&& out.0[i] == want.0
            &&& out.2.contains(px, py) == want.1
            &&& out.2.contains(px, py) ==> r.contains(px, py)
        }),
    decreases k,
{
    let (px, py) = (i % (fbw as int), i / (fbw as int));
    crate::renderer::lemma_coords(fbw as int, fbh as int, i);
    if k > 0 {
        lemma_replay_cmds_at(pixels, cr0, fbw, fbh, cmds, r, (k - 1) as nat, i);
        let (p, c, cr) = replay_cmds(pixels, clipped(fbw, fbh, cr0), cr0, fbw, fbh, cmds, r, (k - 1) as nat);
        let screen = Rect { x: 0, y: 0, width: fbw, height: fbh };
        assert(screen.contains(px, py));
        lemma_intersect_is_common_part(cr, screen, px, py);
        match cmds[k - 1] {
            Command::SetClip { rect } => {
                lemma_intersect_is_common_part(rect, r, px, py);
                lemma_intersect_is_common_part(rect.spec_intersect(r), screen, px, py);
            },
            Command::DrawRect { rect, color } => {
                lemma_intersect_is_common_part(rect, c, px, py);
                if color.a != 0 {
                    assert(rect_paint_all(p, fbw as int, c, rect, color)[i] == rect_paint(
                        p[i],
                        rect.spec_intersect(c),
                        color,
                        px,
                        py,
                    ));
                }
            },
            Command::DrawText { chars, glyphs, x, y, rect, color, ascent, tab_advance, .. } => {
                let c2 = clipped(fbw, fbh, rect.spec_intersect(cr));
                lemma_intersect_is_common_part(rect, cr, px, py);
                lemma_intersect_is_common_part(rect.spec_intersect(cr), screen, px, py);
                lemma_text_paint_at(p, fbw as int, c2, chars@, glyphs@, ascent, tab_advance, x, y, color, chars@.len(), i);
                let b1 = cr.contains(px, py);
                assert(spot(b1 && rect.contains(px, py), px, py).contains(px, py) == (b1 && rect.contains(px, py)));
                lemma_text_px_clip(
                    p[i],
                    c2,
                    spot(b1 && rect.contains(px, py), px, py),
                    px,
                    py,
                    chars@,
                    glyphs@,
                    ascent,
                    tab_advance,
                    x,
                    y,
                    color,
                    chars@.len(),
                );
            },
        }
    }
}

/// a pixel outside the dirty rect is never painted
proof fn lemma_pix_outside_rect(cmds: Seq<Command>, k: nat, px: int, py: int, v: u32)
    ensures
        pix(cmds, k, px, py, v, false, false) == (v, false),
    decreases k,
{
    if k > 0 {
        lemma_pix_outside_rect(cmds, (k - 1) as nat, px, py, v);
        match cmds[k - 1] {
            Command::DrawText { chars, glyphs, x, y, rect, color, ascent, tab_advance, .. } => {
                lemma_text_px_outside(v, spot(false, px, py), px, py, chars@, glyphs@, ascent, tab_advance, x, y, color, chars@.len());
            },
            _ => {},
        }
    }
}

/// the frame's contract: it first clips to a rect holding the pixel, then
/// fills a rect holding it with an opaque color
pub open spec fn paints_first(cmds: Seq<Command>, px: int, py: int) -> bool {
    &&& cmds.len() >= 2
    &&& cmds[0] matches Command::SetClip { rect } && rect.contains(px, py)
    &&& cmds[1] matches Command::DrawRect { rect, color } && rect.contains(px, py) && color.a == 255
}

/// a frame that paints a pixel opaquely first leaves there a value that
/// does not depend on what was there before
proof fn lemma_pix_forgets_the_start(cmds: Seq<Command>, k: nat, px: int, py: int, v: u32, inclip: bool)
    requires
        paints_first(cmds, px, py),
        2 <= k <= cmds.len(),
    ensures
        pix(cmds, k, px, py, v, inclip, true) == pix(cmds, k, px, py, 0, true, true),
    decreases k,
{
    if k == 2 {
        assert(pix(cmds, 0, px, py, v, inclip, true) == (v, inclip));
        assert(pix(cmds, 0, px, py, 0, true, true) == (0u32, true));
        assert(pix(cmds, 1, px, py, v, inclip, true) == (v, true));
        assert(pix(cmds, 1, px, py, 0, true, true) == (0u32, true));
        match cmds[1] {
            Command::DrawRect { rect, color } => {
                lemma_blend_opaque(v, color.r, color.g, color.b);
                lemma_blend_opaque(0, color.r, color.g, color.b);
            },
            _ => {},
        }
    } else {
        lemma_pix_forgets_the_start(cmds, (k - 1) as nat, px, py, v, inclip);
    }
}

/// whether one of the first n rects holds the pixel (px, py)
pub open spec fn held(rects: Seq<Rect>, n: nat, px: int, py: int) -> bool {
    exists|j: int| 0 <= j < n && (#[trigger] rects[j]).contains(px, py)
}

/// redrawing a frame over its dirty rects leaves, at a pixel some rect
/// holds, the frame's own value there, and every other pixel as it was
proof fn lemma_replay_rects_at(
    pixels: Seq<u32>,
    clip: Rect,
    rng: u32,
    fbw: i32,
    fbh: i32,
    cmds: Seq<Command>,
    rects: Seq<Rect>,
    n: nat,
    i: int,
)
    requires
        fbw >= 1,
        fbh >= 1,
        pixels.len() == fbw * fbh,
        0 <= i < pixels.len(),
        n <= rects.len(),
        paints_first(cmds, i % (fbw as int), i / (fbw as int)),
    ensures
        ({
            let out = replay_rects(pixels, clip, rng, fbw, fbh, cmds, rects, false, n);
            let (px, py) = (i % (fbw as int), i / (fbw as int));
            &&& out.0.len() == pixels.len()
            &&& out.0[i] == (if held(rects, n, px, py) {
                frame_pixel(cmds, px, py)
            } else {
                pixels[i]
            })
        }),
    decreases n,
{
    let (px, py) = (i % (fbw as int), i / (fbw as int));
    if n > 0 {
        lemma_replay_rects_at(pixels, clip, rng, fbw, fbh, cmds, rects, (n - 1) as nat, i);
        let (p, c, g) = replay_rects(pixels, clip, rng, fbw, fbh, cmds, rects, false, (n - 1) as nat);
        let r = rects[n - 1];
        lemma_replay_cmds_at(p, r, fbw, fbh, cmds, r, cmds.len(), i);
        if r.contains(px, py) {
            lemma_pix_forgets_the_start(cmds, cmds.len(), px, py, p[i], true);
            assert(held(rects, n, px, py));
        } else {
            lemma_pix_outside_rect(cmds, cmds.len(), px, py, p[i]);
            if held(rects, n, px, py) {
                let j = choose|j: int| 0 <= j < n && (#[trigger] rects[j]).contains(px, py);
                assert(j < n - 1);
                assert(held(rects, (n - 1) as nat, px, py));
            }
            if held(rects, (n - 1) as nat, px, py) {
                let j = choose|j: int| 0 <= j < n - 1 && (#[trigger] rects[j]).contains(px, py);
                assert(held(rects, n, px, py));
            }
        }
    }
}

/// the rect the k-th command of a frame is hashed over: its own rect, cut
/// to the clip in force
pub open spec fn hashed_rect(cmds: Seq<Command>, screen: Rect, k: nat) -> Rect {
    cmds[k - 1].spec_rect().spec_intersect(clip_after(cmds, screen, k))
}

/// a non-empty rect over the cell (cx, cy): its hash goes into the cell
pub open spec fn hits(r: Rect, gw: int, gh: int, cx: int, cy: int) -> bool {
    !r.spec_is_empty() && cell_hit(r, gw, gh, cx, cy)
}

/// the commands among the first k of a frame whose hash went into the
/// cell (cx, cy), in order
pub open spec fn touch_list(cmds: Seq<Command>, screen: Rect, gw: int, gh: int, cx: int, cy: int, k: nat) -> Seq<Command>
    decreases k,
{
    if k == 0 {
        Seq::empty()
    } else {
        let l = touch_list(cmds, screen, gw, gh, cx, cy, (k - 1) as nat);
        if hits(hashed_rect(cmds, screen, k), gw, gh, cx, cy) {
            l.push(cmds[k - 1])
        } else {
            l
        }
    }
}

/// whether the clip in force after the first k commands was set by a
/// command that touched the cell (no clip set yet counts as touching)
pub open spec fn last_clip_touches(cmds: Seq<Command>, screen: Rect, gw: int, gh: int, cx: int, cy: int, k: nat) -> bool
    decreases k,
{
    if k == 0 {
        true
    } else {
        match cmds[k - 1] {
            Command::SetClip { .. } => hits(hashed_rect(cmds, screen, k), gw, gh, cx, cy),
            _ => last_clip_touches(cmds, screen, gw, gh, cx, cy, (k - 1) as nat),
        }
    }
}

proof fn lemma_tdiv_monotone(a: int, b: int)
    requires
        a <= b,
    ensures
        tdiv(a, CELL_SIZE as int) <= tdiv(b, CELL_SIZE as int),
{
    if a >= 0 {
        assert(a / 96 <= b / 96) by (nonlinear_arith)
            requires 0 <= a <= b;
    } else if b >= 0 {
        assert((-a) / 96 >= 0) by (nonlinear_arith)
            requires -a > 0;
        assert(b / 96 >= 0) by (nonlinear_arith)
            requires b >= 0;
    } else {
        assert((-a) / 96 >= (-b) / 96) by (nonlinear_arith)
            requires 0 < -b <= -a;
    }
}

/// a rect holding an on-screen pixel touches the pixel's cell
proof fn lemma_hits_its_pixels(r: Rect, width: int, height: int, px: int, py: int)
    requires
        r.contains(px, py),
        0 <= px < width,
        0 <= py < height,
    ensures
        hits(r, grid_cells(width), grid_cells(height), px / 96, py / 96),
{
    lemma_tdiv_monotone(r.x as int, px);
    lemma_tdiv_monotone(r.y as int, py);
    lemma_tdiv_monotone(px, r.x2());
    lemma_tdiv_monotone(py, r.y2());
    lemma_tdiv_monotone(px, width);
    lemma_tdiv_monotone(py, height);
}

/// a part of a clip touches a cell only if the clip does
proof fn lemma_hits_shrink(r: Rect, s: Rect, gw: int, gh: int, cx: int, cy: int)
    requires
        hits(r.spec_intersect(s), gw, gh, cx, cy),
    ensures
        hits(s.spec_intersect(s), gw, gh, cx, cy),
{
    let i = r.spec_intersect(s);
    let j = s.spec_intersect(s);
    assert(j == s);
    lemma_tdiv_monotone(s.x as int, i.x as int);
    lemma_tdiv_monotone(s.y as int, i.y as int);
    lemma_tdiv_monotone(i.x2(), s.x2());
    lemma_tdiv_monotone(i.y2(), s.y2());
}

/// a command cut to the current clip touches the cell only when the clip
/// was set by a command that touched it
proof fn lemma_clip_touches(cmds: Seq<Command>, screen: Rect, gw: int, gh: int, cx: int, cy: int, k: nat, r: Rect)
    requires
        k <= cmds.len(),
        hits(r.spec_intersect(clip_after(cmds, screen, k)), gw, gh, cx, cy),
    ensures
        last_clip_touches(cmds, screen, gw, gh, cx, cy, k),
    decreases k,
{
    if k > 0 {
        match cmds[k - 1] {
            Command::SetClip { rect } => {
                lemma_hits_shrink(r, rect, gw, gh, cx, cy);
            },
            _ => {
                lemma_clip_touches(cmds, screen, gw, gh, cx, cy, (k - 1) as nat, r);
            },
        }
    }
}

/// replaying agrees on any two frames that agree on their first k commands
proof fn lemma_pix_prefix(s1: Seq<Command>, s2: Seq<Command>, k: nat, px: int, py: int, v: u32, b: bool, inr: bool)
    requires
        k <= s1.len(),
        k <= s2.len(),
        forall|j: int| 0 <= j < k ==> s1[j] == s2[j],
    ensures
        pix(s1, k, px, py, v, b, inr) == pix(s2, k, px, py, v, b, inr),
    decreases k,
{
    if k > 0 {
        lemma_pix_prefix(s1, s2, (k - 1) as nat, px, py, v, b, inr);
    }
}

/// at an on-screen pixel, a frame leaves what the commands that touched
/// the pixel's cell leave there on their own
proof fn lemma_pix_projects(cmds: Seq<Command>, width: int, height: int, k: nat, px: int, py: int, v: u32, b: bool)
    requires
        k <= cmds.len(),
        0 <= px < width,
        0 <= py < height,
        b ==> (Rect { x: 0, y: 0, width: width as i32, height: height as i32 }).contains(px, py),
        width <= i32::MAX,
        height <= i32::MAX,
    ensures
        ({
            let screen = Rect { x: 0, y: 0, width: width as i32, height: height as i32 };
            let (gw, gh, cx, cy) = (grid_cells(width), grid_cells(height), px / 96, py / 96);
            let l = touch_list(cmds, screen, gw, gh, cx, cy, k);
            let f = pix(cmds, k, px, py, v, b, true);
            let g = pix(l, l.len(), px, py, v, b, true);
            &&& f.0 == g.0
            &&& f.1 == (g.1 && last_clip_touches(cmds, screen, gw, gh, cx, cy, k))
            &&& f.1 ==> clip_after(cmds, screen, k).contains(px, py)
        }),
    decreases k,
{
    let screen = Rect { x: 0, y: 0, width: width as i32, height: height as i32 };
    let (gw, gh, cx, cy) = (grid_cells(width), grid_cells(height), px / 96, py / 96);
    if k > 0 {
        lemma_pix_projects(cmds, width, height, (k - 1) as nat, px, py, v, b);
        let l = touch_list(cmds, screen, gw, gh, cx, cy, (k - 1) as nat);
        let cmd = cmds[k - 1];
        let h = hashed_rect(cmds, screen, k);
        let f1 = pix(cmds, (k - 1) as nat, px, py, v, b, true);
        if hits(h, gw, gh, cx, cy) {
            let l2 = l.push(cmd);
            assert(touch_list(cmds, screen, gw, gh, cx, cy, k) == l2);
            lemma_pix_prefix(l2, l, l.len(), px, py, v, b, true);
            assert(l2[l.len() as int] == cmd);
        } else {
            assert(touch_list(cmds, screen, gw, gh, cx, cy, k) == l);
        }
        match cmd {
            Command::SetClip { rect } => {
                lemma_intersect_is_common_part(rect, rect, px, py);
                if rect.contains(px, py) {
                    lemma_hits_its_pixels(rect.spec_intersect(rect), width, height, px, py);
                }
            },
            Command::DrawRect { rect, color } => {
                if hits(h, gw, gh, cx, cy) {
                    lemma_clip_touches(cmds, screen, gw, gh, cx, cy, (k - 1) as nat, rect);
                }
                lemma_intersect_is_common_part(rect, clip_after(cmds, screen, k), px, py);
                if f1.1 && rect.contains(px, py) {
                    lemma_hits_its_pixels(h, width, height, px, py);
                }
            },
            Command::DrawText { chars, glyphs, x, y, rect, color, ascent, tab_advance, .. } => {
                if hits(h, gw, gh, cx, cy) {
                    lemma_clip_touches(cmds, screen, gw, gh, cx, cy, (k - 1) as nat, rect);
                }
                lemma_intersect_is_common_part(rect, clip_after(cmds, screen, k), px, py);
                if f1.1 && rect.contains(px, py) {
                    lemma_hits_its_pixels(h, width, height, px, py);
                }
                lemma_text_px_outside(f1.0, spot(false, px, py), px, py, chars@, glyphs@, ascent, tab_advance, x, y, color, chars@.len());
            },
        }
    }
}

/// the screen of a `width` x `height` framebuffer
pub open spec fn screen_of(width: i32, height: i32) -> Rect {
    Rect { x: 0, y: 0, width, height }
}

/// the editor's contract for a frame: it first clips to the whole screen and
/// fills all of it with an opaque color
pub open spec fn paints_screen(cmds: Seq<Command>, screen: Rect) -> bool {
    &&& cmds.len() >= 2
    &&& cmds[0] == (Command::SetClip { rect: screen })
    &&& cmds[1] matches Command::DrawRect { rect, color } && rect == screen && color.a == 255
}

/// the cell hashes a frame leaves, hashed from a fresh grid
#[verifier::opaque]
pub open spec fn frame_hashes(width: i32, height: i32, cmds: Seq<Command>) -> Seq<u32> {
    let (gw, gh) = (grid_cells(width as int), grid_cells(height as int));
    hashed_cells(fresh_cells(gw * gh), cmds, screen_of(width, height), gw, gh, cmds.len())
}

/// the cell hashes of a fresh (or invalidated) cache: none a frame leaves
pub open spec fn untouched(width: i32, height: i32) -> Seq<u32> {
    Seq::new((grid_cells(width as int) * grid_cells(height as int)) as nat, |i: int| u32::MAX)
}

/// the pixels `end_frame` leaves after a frame with the commands `cmds`,
/// drawn over `pixels` when the previous frame left the cell hashes `prev`
/// (the debug overlay off)
#[verifier::opaque]
pub open spec fn drawn(pixels: Seq<u32>, clip: Rect, rng: u32, width: i32, height: i32, cmds: Seq<Command>, prev: Seq<u32>) -> Seq<u32> {
    let screen = screen_of(width, height);
    let (gw, gh) = (grid_cells(width as int), grid_cells(height as int));
    let hashed = frame_hashes(width, height, cmds);
    let cell_rects = dirty_rects(hashed, prev, gw, (gw * gh) as nat);
    let rects = expand(cell_rects, screen, cell_rects.len());
    replay_rects(pixels, clip, rng, width, height, cmds, rects, false, rects.len()).0
}

/// no hash collision between frames `a` and `b`: neither frame leaves a
/// cell hash equal to a fresh cache's, and a cell hashes the same in both
/// frames only when the same commands touched it
#[verifier::opaque]
pub open spec fn no_collision(width: i32, height: i32, a: Seq<Command>, b: Seq<Command>) -> bool {
    &&& forall|c: int|
        0 <= c < grid_cells(width as int) * grid_cells(height as int) ==> #[trigger] frame_hashes(width, height, a)[c]
            != u32::MAX && frame_hashes(width, height, b)[c] != u32::MAX
    &&& forall|c: int|
        0 <= c < grid_cells(width as int) * grid_cells(height as int) && #[trigger] frame_hashes(width, height, a)[c]
            == frame_hashes(width, height, b)[c] ==> touch_list(
            a,
            screen_of(width, height),
            grid_cells(width as int),
            grid_cells(height as int),
            c % grid_cells(width as int),
            c / grid_cells(width as int),
            a.len(),
        ) == touch_list(
            b,
            screen_of(width, height),
            grid_cells(width as int),
            grid_cells(height as int),
            c % grid_cells(width as int),
            c / grid_cells(width as int),
            b.len(),
        )
}

proof fn lemma_hashed_len(cells: Seq<u32>, cmds: Seq<Command>, screen: Rect, gw: int, gh: int, k: nat)
    ensures
        hashed_cells(cells, cmds, screen, gw, gh, k).len() == cells.len(),
    decreases k,
{
    if k > 0 {
        lemma_hashed_len(cells, cmds, screen, gw, gh, (k - 1) as nat);
    }
}

/// where a frame's hashes differ from `prev`, drawing the frame leaves the
/// frame's own pixels; elsewhere the pixels stay
proof fn lemma_drawn_at(pixels: Seq<u32>, clip: Rect, rng: u32, width: i32, height: i32, cmds: Seq<Command>, prev: Seq<u32>, i: int)
    requires
        width >= 1,
        height >= 1,
        screen_size_ok(width, height),
        pixels.len() == width * height,
        prev.len() == grid_cells(width as int) * grid_cells(height as int),
        0 <= i < pixels.len(),
        paints_screen(cmds, screen_of(width, height)),
    ensures
        ({
            let (px, py) = (i % (width as int), i / (width as int));
            let gw = grid_cells(width as int);
            let ci = (py / 96) * gw + px / 96;
            let out = drawn(pixels, clip, rng, width, height, cmds, prev);
            &&& out.len() == pixels.len()
            &&& frame_hashes(width, height, cmds).len() == gw * grid_cells(height as int)
            &&& 0 <= ci < gw * grid_cells(height as int)
            &&& ci % gw == px / 96
            &&& ci / gw == py / 96
            &&& frame_hashes(width, height, cmds)[ci] != prev[ci] ==> out[i] == frame_pixel(cmds, px, py)
            &&& (out[i] == frame_pixel(cmds, px, py) || (out[i] == pixels[i] && frame_hashes(width, height, cmds)[ci] == prev[ci]))
        }),
{
    reveal(drawn);
    reveal(frame_hashes);
    let (px, py) = (i % (width as int), i / (width as int));
    crate::renderer::lemma_coords(width as int, height as int, i);
    let screen = screen_of(width, height);
    let (gw, gh) = (grid_cells(width as int), grid_cells(height as int));
    let (cx, cy) = (px / 96, py / 96);
    assert(0 <= cx < gw) by (nonlinear_arith)
        requires cx == px / 96, 0 <= px < width, gw == width / 96 + 1, width >= 1;
    assert(0 <= cy < gh) by (nonlinear_arith)
        requires cy == py / 96, 0 <= py < height, gh == height / 96 + 1, height >= 1;
    let ci = cy * gw + cx;
    assert(0 <= ci < gw * gh && ci % gw == cx && ci / gw == cy) by (nonlinear_arith)
        requires 0 <= cx < gw, 0 <= cy < gh, ci == cy * gw + cx;
    assert(px < gw * 96 && py < gh * 96) by (nonlinear_arith)
        requires 0 <= px < width, 0 <= py < height, gw == width / 96 + 1, gh == height / 96 + 1, width >= 1, height >= 1;
    let hashed = frame_hashes(width, height, cmds);
    lemma_hashed_len(fresh_cells(gw * gh), cmds, screen, gw, gh, cmds.len());
    let cell_rects = dirty_rects(hashed, prev, gw, (gw * gh) as nat);
    let rects = expand(cell_rects, screen, cell_rects.len());
    assert(paints_first(cmds, px, py));
    lemma_replay_rects_at(pixels, clip, rng, width, height, cmds, rects, rects.len(), i);
    if hashed[ci] != prev[ci] {
        lemma_changes_are_redrawn(hashed, prev, gw, gh, screen, px, py);
        let j = choose|j: int| 0 <= j < rects.len() && (#[trigger] rects[j]).contains(px, py);
        assert(held(rects, rects.len(), px, py));
    }
}

/// frames that send the same commands to a cell leave the same pixels in it
proof fn lemma_same_touches_same_pixel(a: Seq<Command>, b: Seq<Command>, width: i32, height: i32, px: int, py: int)
    requires
        width >= 1,
        height >= 1,
        0 <= px < width,
        0 <= py < height,
        ({
            let screen = screen_of(width, height);
            let (gw, gh) = (grid_cells(width as int), grid_cells(height as int));
            touch_list(a, screen, gw, gh, px / 96, py / 96, a.len()) == touch_list(b, screen, gw, gh, px / 96, py / 96, b.len())
        }),
    ensures
        frame_pixel(a, px, py) == frame_pixel(b, px, py),
{
    lemma_pix_projects(a, width as int, height as int, a.len(), px, py, 0, true);
    lemma_pix_projects(b, width as int, height as int, b.len(), px, py, 0, true);
}

/// the cache is invisible at one pixel
proof fn lemma_invisible_at(
    a: Seq<Command>,
    b: Seq<Command>,
    width: i32,
    height: i32,
    start: Seq<u32>,
    other: Seq<u32>,
    clip_a: Rect,
    clip_b: Rect,
    clip_fresh: Rect,
    rng_a: u32,
    rng_b: u32,
    rng_fresh: u32,
    i: int,
)
    requires
        width >= 1,
        height >= 1,
        screen_size_ok(width, height),
        start.len() == width * height,
        other.len() == width * height,
        0 <= i < start.len(),
        paints_screen(a, screen_of(width, height)),
        paints_screen(b, screen_of(width, height)),
        no_collision(width, height, a, b),
    ensures
        ({
            let fresh = untouched(width, height);
            let p1 = drawn(start, clip_a, rng_a, width, height, a, fresh);
            let p2 = drawn(p1, clip_b, rng_b, width, height, b, frame_hashes(width, height, a));
            let p3 = drawn(other, clip_fresh, rng_fresh, width, height, b, fresh);
            &&& p2.len() == start.len()
            &&& p3.len() == start.len()
            &&& p2[i] == p3[i]
        }),
{
    let fresh = untouched(width, height);
    let (gw, gh) = (grid_cells(width as int), grid_cells(height as int));
    let screen = screen_of(width, height);
    let ha = frame_hashes(width, height, a);
    let hb = frame_hashes(width, height, b);
    let p1 = drawn(start, clip_a, rng_a, width, height, a, fresh);
    let (px, py) = (i % (width as int), i / (width as int));
    crate::renderer::lemma_coords(width as int, height as int, i);
    reveal(no_collision);
    lemma_drawn_at(start, clip_a, rng_a, width, height, a, fresh, i);
    lemma_drawn_at(other, clip_fresh, rng_fresh, width, height, b, fresh, i);
    lemma_drawn_at(p1, clip_b, rng_b, width, height, b, ha, i);
    let ci = (py / 96) * gw + px / 96;
    assert(ha[ci] != u32::MAX && hb[ci] != u32::MAX);
    if hb[ci] == ha[ci] {
        lemma_same_touches_same_pixel(a, b, width, height, px, py);
    }
}

/// The cache is invisible: when every frame paints the whole screen (the
/// editor's contract) and no cell hash collides, drawing frame `b` after frame `a`
/// -- both on a fresh cache's screen -- leaves exactly the pixels drawing
/// `b` alone on a fresh cache leaves, whatever the pixels were before.
pub proof fn lemma_the_cache_is_invisible(
    a: Seq<Command>,
    b: Seq<Command>,
    width: i32,
    height: i32,
    start: Seq<u32>,
    other: Seq<u32>,
    clip_a: Rect,
    clip_b: Rect,
    clip_fresh: Rect,
    rng_a: u32,
    rng_b: u32,
    rng_fresh: u32,
)
    requires
        width >= 1,
        height >= 1,
        screen_size_ok(width, height),
        start.len() == width * height,
        other.len() == width * height,
        paints_screen(a, screen_of(width, height)),
        paints_screen(b, screen_of(width, height)),
        no_collision(width, height, a, b),
    ensures
        drawn(
            drawn(start, clip_a, rng_a, width, height, a, untouched(width, height)),
            clip_b,
            rng_b,
            width,
            height,
            b,
            frame_hashes(width, height, a),
        ) == drawn(other, clip_fresh, rng_fresh, width, height, b, untouched(width, height)),
{
    let fresh = untouched(width, height);
    let p1 = drawn(start, clip_a, rng_a, width, height, a, fresh);
    let p2 = drawn(p1, clip_b, rng_b, width, height, b, frame_hashes(width, height, a));
    let p3 = drawn(other, clip_fresh, rng_fresh, width, height, b, fresh);
    assert forall|i: int| 0 <= i < start.len() implies p2[i] == p3[i] by {
        lemma_invisible_at(a, b, width, height, start, other, clip_a, clip_b, clip_fresh, rng_a, rng_b, rng_fresh, i);
    }
    assert(width * height >= 1) by (nonlinear_arith)
        requires width >= 1, height >= 1;
    lemma_invisible_at(a, b, width, height, start, other, clip_a, clip_b, clip_fresh, rng_a, rng_b, rng_fresh, 0);
    assert(p2 =~= p3);
}

} // verus!
