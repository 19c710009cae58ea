use wisp::font::{chars_of, ink_box_of, width_of, Glyph};
use wisp::renderer::Rect;

fn glyph(advance: i32) -> Glyph {
    Glyph { advance, left: 1, top: 3, width: 2, mask: vec![200; 6] }
}

fn blank(advance: i32) -> Glyph {
    Glyph { advance, left: 0, top: 0, width: 0, mask: Vec::new() }
}

#[test]
fn tabs_advance_by_the_tab_width() {
    let text = chars_of("a\tb");
    let glyphs = vec![glyph(7), blank(99), glyph(7)];
    assert_eq!(width_of(&text, &glyphs, 42), 42 + 2 * 7);
}

#[test]
fn a_width_past_i32_saturates() {
    let text = chars_of("\t\t\t");
    let glyphs = vec![blank(0), blank(0), blank(0)];
    assert_eq!(width_of(&text, &glyphs, i32::MAX), i32::MAX);
    assert_eq!(width_of(&text, &glyphs, i32::MIN), i32::MIN);
}

#[test]
fn chars_come_out_in_order() {
    assert_eq!(chars_of("héllo"), vec!['h', 'é', 'l', 'l', 'o']);
}

#[test]
fn the_ink_box_covers_every_mask() {
    let text = chars_of("ab");
    let glyphs = vec![glyph(5), glyph(5)];
    // masks 2 wide and 3 tall, 1 right of the pen, top 3 above a baseline at ascent 4
    assert_eq!(ink_box_of(&text, &glyphs, 4, 8), Some(Rect::new(1, 1, 7, 3)));
    assert_eq!(ink_box_of(&chars_of("\t"), &[blank(3)], 4, 8), None);
}
