use wisp::image::Image;
use wisp::renderer::{Color, Framebuffer, Rect};

fn color(r: u8, g: u8, b: u8, a: u8) -> Color {
    Color { r, g, b, a }
}

fn pack(r: u8, g: u8, b: u8) -> u32 {
    ((r as u32) << 16) | ((g as u32) << 8) | b as u32
}

#[test]
fn opaque_rect_fills_exactly() {
    let mut fb = Framebuffer::new(10, 10);
    fb.draw_rect(Rect::new(2, 3, 4, 2), color(255, 0, 0, 255));
    let red = pack(255, 0, 0);
    let filled = fb.pixels.iter().filter(|&&p| p == red).count();
    assert_eq!(filled, 8);
    assert_eq!(fb.pixels[(3 * 10 + 2) as usize], red);
    assert_eq!(fb.pixels[(4 * 10 + 5) as usize], red);
    assert_eq!(fb.pixels[(3 * 10 + 6) as usize], 0);
}

#[test]
fn rect_is_clipped() {
    let mut fb = Framebuffer::new(10, 10);
    fb.set_clip(Rect::new(4, 4, 2, 2));
    fb.draw_rect(Rect::new(0, 0, 10, 10), color(0, 255, 0, 255));
    let green = pack(0, 255, 0);
    assert_eq!(fb.pixels.iter().filter(|&&p| p == green).count(), 4);
}

#[test]
fn rect_outside_framebuffer_is_safe() {
    let mut fb = Framebuffer::new(10, 10);
    fb.draw_rect(Rect::new(-100, -100, 50, 50), color(255, 255, 255, 255));
    fb.draw_rect(Rect::new(100, 100, 50, 50), color(255, 255, 255, 255));
    fb.draw_rect(Rect::new(-5, -5, 10, 10), color(255, 255, 255, 255));
    assert_eq!(fb.pixels[0], pack(255, 255, 255));
}

#[test]
fn zero_alpha_draws_nothing() {
    let mut fb = Framebuffer::new(4, 4);
    fb.draw_rect(Rect::new(0, 0, 4, 4), color(255, 255, 255, 0));
    assert!(fb.pixels.iter().all(|&p| p == 0));
}

#[test]
fn alpha_blend_is_exact() {
    // 50% white over black must give exactly 128 (rounded), not 127
    let mut fb = Framebuffer::new(1, 1);
    fb.draw_rect(Rect::new(0, 0, 1, 1), color(255, 255, 255, 128));
    assert_eq!(fb.pixels[0], pack(128, 128, 128));
}

#[test]
fn full_alpha_blend_is_identity() {
    let mut fb = Framebuffer::new(1, 1);
    fb.draw_rect(Rect::new(0, 0, 1, 1), color(10, 20, 30, 255));
    fb.draw_rect(Rect::new(0, 0, 1, 1), color(200, 100, 50, 255));
    assert_eq!(fb.pixels[0], pack(200, 100, 50));
}

#[test]
fn rect_ops() {
    let a = Rect::new(0, 0, 10, 10);
    let b = Rect::new(5, 5, 10, 10);
    assert_eq!(a.intersect(b), Rect::new(5, 5, 5, 5));
    assert_eq!(a.merge(b), Rect::new(0, 0, 15, 15));
    assert!(a.overlaps(b));
    assert!(!Rect::new(0, 0, 2, 2).overlaps(Rect::new(5, 5, 2, 2)));
    assert!(a.intersect(Rect::new(20, 20, 5, 5)).is_empty());
}

/// a 2x2 test card: red, green / blue, white
fn card() -> Image {
    Image::from_rgba(
        2,
        2,
        &[
            255, 0, 0, 255, 0, 255, 0, 255, //
            0, 0, 255, 255, 255, 255, 255, 255,
        ],
    )
    .unwrap()
}

#[test]
fn image_draws_at_natural_size() {
    let mut fb = Framebuffer::new(6, 6);
    fb.draw_image(&card(), Rect::new(1, 2, 2, 2), color(255, 255, 255, 255));
    assert_eq!(fb.pixels[(2 * 6 + 1) as usize], pack(255, 0, 0));
    assert_eq!(fb.pixels[(2 * 6 + 2) as usize], pack(0, 255, 0));
    assert_eq!(fb.pixels[(3 * 6 + 1) as usize], pack(0, 0, 255));
    assert_eq!(fb.pixels[(3 * 6 + 2) as usize], pack(255, 255, 255));
    // and not a pixel more
    let inked = fb.pixels.iter().filter(|&&p| p != 0).count();
    assert_eq!(inked, 4);
}

#[test]
fn nearest_upscale_maps_pixels_exactly() {
    let mut fb = Framebuffer::new(4, 4);
    fb.draw_image(&card(), Rect::new(0, 0, 4, 4), color(255, 255, 255, 255));
    // each source pixel becomes a clean 2x2 block
    for (x, y, want) in [
        (0, 0, pack(255, 0, 0)),
        (1, 1, pack(255, 0, 0)),
        (3, 0, pack(0, 255, 0)),
        (0, 3, pack(0, 0, 255)),
        (3, 3, pack(255, 255, 255)),
    ] {
        assert_eq!(fb.pixels[(y * 4 + x) as usize], want, "at ({x}, {y})");
    }
}

#[test]
fn image_alpha_and_tint_blend_exactly() {
    // a half-transparent white source pixel over black must give 128,
    // and a tint must multiply both color and alpha
    let img = Image::from_rgba(1, 1, &[255, 255, 255, 128]).unwrap();
    let mut fb = Framebuffer::new(1, 1);
    fb.draw_image(&img, Rect::new(0, 0, 1, 1), color(255, 255, 255, 255));
    assert_eq!(fb.pixels[0], pack(128, 128, 128));

    let mut fb = Framebuffer::new(1, 1);
    let opaque = Image::from_rgba(1, 1, &[255, 255, 255, 255]).unwrap();
    fb.draw_image(&opaque, Rect::new(0, 0, 1, 1), color(255, 0, 0, 128));
    assert_eq!(fb.pixels[0], pack(128, 0, 0));
}

// repainting part of a scaled image must produce the same pixels as
// painting it whole: any partition of the screen into clips reproduces
// the unclipped frame bit for bit
#[test]
fn a_scaled_image_redrawn_in_parts_matches_the_whole() {
    let img = Image::from_rgba(3, 3, &(0..36).map(|i| (i * 7) as u8).collect::<Vec<_>>()).unwrap();
    // awkward scale and offset on purpose: 3x3 into 17x13 at (-2, 3)
    let dest = Rect::new(-2, 3, 17, 13);
    let mut whole = Framebuffer::new(16, 16);
    whole.draw_image(&img, dest, color(255, 255, 255, 255));

    let mut parts = Framebuffer::new(16, 16);
    for (cx, cy, cw, ch) in [(0, 0, 7, 16), (7, 0, 9, 5), (7, 5, 9, 11)] {
        parts.set_clip(Rect::new(cx, cy, cw, ch));
        parts.draw_image(&img, dest, color(255, 255, 255, 255));
    }
    assert_eq!(whole.pixels, parts.pixels);
}

#[test]
fn extreme_rects_do_not_overflow() {
    let huge = Rect::new(i32::MIN, i32::MIN, i32::MAX, i32::MAX);
    let tiny = Rect::new(0, 0, 4, 4);
    let _ = huge.overlaps(tiny);
    let _ = huge.intersect(tiny);
    let _ = huge.merge(tiny);
    let mut fb = Framebuffer::new(8, 8);
    fb.draw_rect(
        Rect::new(i32::MAX - 1, i32::MAX - 1, i32::MAX, i32::MAX),
        color(1, 2, 3, 255),
    );
    fb.draw_rect(Rect::new(i32::MIN, 0, i32::MAX, i32::MAX), color(1, 2, 3, 128));
}

// a deterministic sweep standing in for the random clip checks: no rect,
// under any clip, writes a pixel outside the clip
#[test]
fn draw_rect_never_leaves_the_clip() {
    let values = [i32::MIN, -7, 0, 3, 9, i32::MAX];
    for &rx in &values {
        for &rw in &values {
            for (cx, cy, cw, ch) in [(-3, 2, 5, 9), (4, 4, 0, 3), (10, -20, 29, 29)] {
                let mut fb = Framebuffer::new(16, 16);
                fb.set_clip(Rect::new(cx, cy, cw, ch));
                fb.draw_rect(Rect::new(rx, rx, rw, rw), color(9, 8, 7, 200));
                let clip = Rect::new(cx, cy, cw, ch).intersect(Rect::new(0, 0, 16, 16));
                for y in 0..16 {
                    for x in 0..16 {
                        let inside = x >= clip.x
                            && x < clip.x + clip.width
                            && y >= clip.y
                            && y < clip.y + clip.height;
                        if !inside {
                            assert_eq!(fb.pixels[(y * 16 + x) as usize], 0);
                        }
                    }
                }
            }
        }
    }
}

#[test]
fn intersect_is_the_common_part_and_commutes() {
    let a = Rect::new(-3, 4, 10, 2);
    let b = Rect::new(1, 0, 3, 30);
    assert_eq!(a.intersect(b), Rect::new(1, 4, 3, 2));
    assert_eq!(a.intersect(b), b.intersect(a));
    assert_eq!(a.overlaps(b), b.overlaps(a));
    let m = a.merge(b);
    assert_eq!(m.intersect(a), a);
    assert_eq!(m.intersect(b), b);
}

#[test]
fn a_resized_framebuffer_is_black_and_unclipped() {
    let mut fb = Framebuffer::new(3, 3);
    fb.set_clip(Rect::new(0, 0, 1, 1));
    fb.draw_rect(Rect::new(0, 0, 3, 3), color(255, 255, 255, 255));
    fb.resize(5, 2);
    assert_eq!((fb.width, fb.height), (5, 2));
    assert_eq!(fb.pixels.len(), 10);
    fb.draw_rect(Rect::new(0, 0, 5, 2), color(0, 0, 255, 255));
    assert!(fb.pixels.iter().all(|&p| p == pack(0, 0, 255)));
}

#[test]
fn set_clip_is_cut_to_the_buffer() {
    let mut fb = Framebuffer::new(16, 16);
    assert_eq!(fb.clip(), Rect::new(0, 0, 16, 16));
    fb.set_clip(Rect::new(-2, 3, 40, 5));
    assert_eq!(fb.clip(), Rect::new(0, 3, 16, 5));
    fb.draw_rect(Rect::new(0, 0, 16, 16), color(255, 255, 255, 255));
    assert_eq!(fb.pixels[2 * 16], 0);
    assert_ne!(fb.pixels[3 * 16], 0);
    assert_eq!(fb.pixels[8 * 16 + 5], 0);
}
