use wisp::font::{FontMetrics, Glyph};
use wisp::rencache::RenCache;
use wisp::renderer::{Color, Framebuffer, Rect};

const WHITE: Color = Color { r: 255, g: 255, b: 255, a: 255 };
const RED: Color = Color { r: 255, g: 0, b: 0, a: 255 };

fn frame(cache: &mut RenCache, fb: &mut Framebuffer, draws: &[(Rect, Color)]) -> Vec<Rect> {
    cache.begin_frame(fb.width, fb.height);
    cache.set_clip_rect(Rect::new(0, 0, fb.width, fb.height));
    for &(r, c) in draws {
        cache.draw_rect(r, c);
    }
    cache.end_frame(fb)
}

#[test]
fn identical_frames_produce_no_dirty_rects() {
    let mut cache = RenCache::new();
    let mut fb = Framebuffer::new(400, 300);
    let draws = [(Rect::new(10, 10, 50, 50), WHITE)];
    let first = frame(&mut cache, &mut fb, &draws);
    assert!(!first.is_empty(), "first frame must redraw");
    for _ in 0..10 {
        let rects = frame(&mut cache, &mut fb, &draws);
        assert!(rects.is_empty(), "unchanged frame redrew {rects:?}");
    }
}

#[test]
fn changed_region_is_redrawn_and_covers_the_change() {
    let mut cache = RenCache::new();
    let mut fb = Framebuffer::new(400, 300);
    frame(&mut cache, &mut fb, &[(Rect::new(10, 10, 50, 50), WHITE)]);
    let rects = frame(&mut cache, &mut fb, &[(Rect::new(10, 10, 50, 50), RED)]);
    assert!(!rects.is_empty());
    let change = Rect::new(10, 10, 50, 50);
    assert!(
        rects.iter().any(|r| r.intersect(change) == change),
        "dirty rects {rects:?} must cover the changed rect"
    );
    // and the framebuffer actually shows the new color
    assert_eq!(fb.pixels[(20 * 400 + 20) as usize], 0xff0000);
}

#[test]
fn resize_invalidates_everything() {
    let mut cache = RenCache::new();
    let mut fb = Framebuffer::new(400, 300);
    frame(&mut cache, &mut fb, &[(Rect::new(0, 0, 400, 300), WHITE)]);
    fb.resize(500, 400);
    let rects = frame(&mut cache, &mut fb, &[(Rect::new(0, 0, 500, 400), WHITE)]);
    let total: i64 = rects.iter().map(|r| r.width as i64 * r.height as i64).sum();
    assert!(total >= 500 * 400, "resize must redraw the whole screen");
}

#[test]
fn huge_screen_does_not_panic() {
    let mut cache = RenCache::new();
    let mut fb = Framebuffer::new(10000, 6000);
    let rects = frame(&mut cache, &mut fb, &[(Rect::new(9000, 5000, 500, 500), WHITE)]);
    assert!(!rects.is_empty());
}

#[test]
fn invalidate_forces_full_redraw() {
    let mut cache = RenCache::new();
    let mut fb = Framebuffer::new(400, 300);
    let draws = [(Rect::new(10, 10, 50, 50), WHITE)];
    frame(&mut cache, &mut fb, &draws);
    cache.invalidate();
    let rects = frame(&mut cache, &mut fb, &draws);
    let total: i64 = rects.iter().map(|r| r.width as i64 * r.height as i64).sum();
    assert!(total >= 400 * 300);
}

#[test]
fn clip_rect_limits_dirty_region() {
    let mut cache = RenCache::new();
    let mut fb = Framebuffer::new(400, 300);
    // frame 1: just a small clip
    cache.begin_frame(400, 300);
    cache.set_clip_rect(Rect::new(0, 0, 50, 50));
    cache.end_frame(&mut fb);
    // frame 2: same clip plus a draw entirely outside it -- the clipped
    // draw must not dirty anything
    cache.begin_frame(400, 300);
    cache.set_clip_rect(Rect::new(0, 0, 50, 50));
    cache.draw_rect(Rect::new(200, 200, 50, 50), WHITE);
    let rects = cache.end_frame(&mut fb);
    assert!(rects.is_empty(), "fully clipped draw dirtied {rects:?}");
}

fn square_glyph(advance: i32) -> Glyph {
    Glyph { advance, left: 0, top: 2, width: 2, mask: vec![255; 4] }
}

#[test]
fn draw_text_returns_the_pen_and_paints_the_glyphs() {
    let mut cache = RenCache::new();
    let mut fb = Framebuffer::new(64, 32);
    let font = FontMetrics { id: 7, height: 10, ascent: 4, tab_advance: 16 };
    cache.begin_frame(64, 32);
    cache.set_clip_rect(Rect::new(0, 0, 64, 32));
    let end = cache.draw_text(&font, "ab", vec![square_glyph(5), square_glyph(6)], 3, 1, WHITE);
    assert_eq!(end, 3 + 5 + 6);
    let rects = cache.end_frame(&mut fb);
    assert!(!rects.is_empty());
    // the first glyph's 2x2 mask sits at the pen, top at ascent - top
    assert_eq!(fb.pixels[(3 * 64 + 3) as usize], 0xffffff);
    assert_eq!(fb.pixels[(4 * 64 + 9) as usize], 0xffffff);
}

#[test]
fn a_repeated_text_frame_is_free() {
    let mut cache = RenCache::new();
    let mut fb = Framebuffer::new(64, 32);
    let font = FontMetrics { id: 1, height: 10, ascent: 4, tab_advance: 16 };
    for round in 0..3 {
        cache.begin_frame(64, 32);
        cache.set_clip_rect(Rect::new(0, 0, 64, 32));
        cache.draw_text(&font, "x", vec![square_glyph(5)], 0, 0, RED);
        let rects = cache.end_frame(&mut fb);
        assert_eq!(rects.is_empty(), round > 0);
    }
}

#[test]
fn the_debug_overlay_still_redraws_only_changes() {
    let mut cache = RenCache::new();
    let mut fb = Framebuffer::new(100, 100);
    cache.show_debug(true);
    let draws = [(Rect::new(0, 0, 100, 100), WHITE)];
    frame(&mut cache, &mut fb, &draws);
    assert!(frame(&mut cache, &mut fb, &draws).is_empty());
}

// the cache's contract: every frame fully paints the screen; then drawing a frame after any other leaves the pixels drawing
// it on a fresh cache leaves
fn apply(cache: &mut RenCache, fb: &mut Framebuffer, cmds: &[(Option<Rect>, Rect, Color)]) -> Vec<Rect> {
    cache.begin_frame(fb.width, fb.height);
    cache.set_clip_rect(Rect::new(0, 0, fb.width, fb.height));
    cache.draw_rect(Rect::new(0, 0, fb.width, fb.height), Color { r: 30, g: 30, b: 34, a: 255 });
    for &(clip, r, c) in cmds {
        if let Some(clip) = clip {
            cache.set_clip_rect(clip);
        }
        cache.draw_rect(r, c);
    }
    cache.end_frame(fb)
}

#[test]
fn cache_is_invisible_for_sample_frames() {
    let half = Color { r: 200, g: 10, b: 90, a: 128 };
    let frames: Vec<Vec<(Option<Rect>, Rect, Color)>> = vec![
        vec![],
        vec![(None, Rect::new(10, 10, 150, 90), half)],
        vec![(Some(Rect::new(0, 0, 100, 100)), Rect::new(-40, 20, 300, 30), RED)],
        vec![(None, Rect::new(100, 100, 200, 80), WHITE), (Some(Rect::new(150, 0, 50, 200)), Rect::new(0, 0, 320, 200), half)],
    ];
    for a in &frames {
        for b in &frames {
            let mut cache = RenCache::new();
            let mut fb = Framebuffer::new(320, 200);
            apply(&mut cache, &mut fb, a);
            apply(&mut cache, &mut fb, b);
            let mut fresh_cache = RenCache::new();
            let mut fresh_fb = Framebuffer::new(320, 200);
            apply(&mut fresh_cache, &mut fresh_fb, b);
            assert_eq!(fb.pixels, fresh_fb.pixels);
        }
    }
}

#[test]
fn screen_sizes_are_checked_before_gridding() {
    assert!(wisp::rencache::screen_size_fits(10000, 6000));
    assert!(!wisp::rencache::screen_size_fits(i32::MAX, 10));
    assert!(wisp::rencache::screen_size_fits(0, 0));
}

#[test]
fn a_default_cache_starts_like_a_new_one() {
    let mut cache = RenCache::default();
    let mut fb = Framebuffer::new(50, 40);
    let first = frame(&mut cache, &mut fb, &[(Rect::new(0, 0, 50, 40), WHITE)]);
    assert!(!first.is_empty());
    assert!(frame(&mut cache, &mut fb, &[(Rect::new(0, 0, 50, 40), WHITE)]).is_empty());
}
