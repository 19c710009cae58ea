use std::collections::VecDeque;

use wisp::renderer::Color;
use wisp::terminal::{
    clamp_size, default_palette, dim, lookup, mouse_encoding, mouse_protocol, queue_input, read_step,
    resolve, runs_of, style_of, write_step, Cell, CellFlags, IoOutcome, ReadStep, Rgb, TermColor,
    BACKGROUND, DIM_BLACK, DIM_FOREGROUND, FLAG_BOLD, FLAG_ITALIC, FLAG_STRIKEOUT, FLAG_UNDERLINE,
    FOREGROUND, PALETTE_SIZE, READ_CAP, WRITE_CAP,
};

fn rgb(r: u8, g: u8, b: u8) -> Rgb {
    Rgb { r, g, b }
}

fn no_overrides() -> Vec<Option<Rgb>> {
    vec![None; PALETTE_SIZE]
}

fn plain() -> CellFlags {
    CellFlags {
        bold: false,
        italic: false,
        underline: false,
        strikeout: false,
        dim: false,
        inverse: false,
        hidden: false,
        wide: false,
        spacer: false,
    }
}

fn cell(c: char, fg: TermColor, bg: TermColor, flags: CellFlags) -> Cell {
    Cell { c, zerowidth: Vec::new(), fg, bg, flags }
}

fn text_cell(c: char) -> Cell {
    cell(c, TermColor::Named(FOREGROUND), TermColor::Named(BACKGROUND), plain())
}

#[test]
fn the_stock_palette_is_xterms() {
    let p = default_palette();
    assert_eq!(p.get(1), rgb(205, 0, 0));
    assert_eq!(p.get(12), rgb(92, 92, 255));
    assert_eq!(p.get(16), rgb(0, 0, 0));
    assert_eq!(p.get(17), rgb(0, 0, 95));
    assert_eq!(p.get(196), rgb(255, 0, 0));
    assert_eq!(p.get(231), rgb(255, 255, 255));
    assert_eq!(p.get(232), rgb(8, 8, 8));
    assert_eq!(p.get(255), rgb(238, 238, 238));
    assert_eq!(p.get(FOREGROUND), rgb(229, 229, 229));
    assert_eq!(p.get(BACKGROUND), rgb(0, 0, 0));
    assert_eq!(p.get(DIM_BLACK + 1), rgb(136, 0, 0));
    assert_eq!(p.get(DIM_FOREGROUND), rgb(152, 152, 152));
}

#[test]
fn dim_takes_two_thirds() {
    assert_eq!(dim(rgb(255, 3, 1)), rgb(170, 2, 0));
}

#[test]
fn the_palette_from_lua_recolors_named_colors() {
    let mut p = default_palette();
    let mut base = [Color::default(); 16];
    base[1] = Color { r: 1, g: 2, b: 3, a: 255 };
    p.set_palette(&base, Color { r: 9, g: 9, b: 9, a: 255 }, Color { r: 7, g: 7, b: 7, a: 255 });
    let ov = no_overrides();
    let c = cell('x', TermColor::Indexed(1), TermColor::Named(BACKGROUND), plain());
    let (fg, bg, _) = style_of(&p, &ov, &c);
    assert_eq!((fg.r, fg.g, fg.b), (1, 2, 3));
    assert_eq!((bg.r, bg.g, bg.b), (7, 7, 7));
    // the cube and the ramp stay
    assert_eq!(p.get(17), rgb(0, 0, 95));
    assert_eq!(p.get(DIM_BLACK + 1), rgb(0, 1, 2));
}

#[test]
fn runtime_overrides_win_over_the_palette() {
    let p = default_palette();
    let mut ov = no_overrides();
    ov[1] = Some(rgb(0, 0, 255));
    assert_eq!(lookup(&p, &ov, 1), rgb(0, 0, 255));
    assert_eq!(lookup(&p, &ov, 2), rgb(0, 205, 0));
    let c = resolve(&p, &ov, TermColor::Spec(rgb(4, 5, 6)));
    assert_eq!(c, Color { r: 4, g: 5, b: 6, a: 255 });
}

#[test]
fn inverse_swaps_colors_and_styles_become_flags() {
    let p = default_palette();
    let ov = no_overrides();
    let mut f = plain();
    f.bold = true;
    f.italic = true;
    f.underline = true;
    f.inverse = true;
    let c = cell('Z', TermColor::Named(FOREGROUND), TermColor::Named(BACKGROUND), f);
    let (fg, bg, flags) = style_of(&p, &ov, &c);
    assert_eq!(flags, FLAG_BOLD | FLAG_ITALIC | FLAG_UNDERLINE);
    assert_eq!((fg.r, fg.g, fg.b), (0, 0, 0));
    assert_eq!((bg.r, bg.g, bg.b), (229, 229, 229));
    f.strikeout = true;
    f.inverse = false;
    f.hidden = true;
    let (fg, bg, flags) = style_of(&p, &ov, &cell('Z', TermColor::Indexed(1), TermColor::Indexed(4), f));
    assert_eq!(flags, 15);
    assert_eq!(flags & FLAG_STRIKEOUT, FLAG_STRIKEOUT);
    assert_eq!(fg, bg);
}

#[test]
fn colors_split_runs() {
    let p = default_palette();
    let ov = no_overrides();
    let red = |c| cell(c, TermColor::Indexed(1), TermColor::Named(BACKGROUND), plain());
    let on_green = |c| cell(c, TermColor::Indexed(1), TermColor::Indexed(2), plain());
    let row = vec![red('r'), red('e'), red('d'), on_green('g'), on_green('r'), on_green('n')];
    let runs = runs_of(&row, &p, &ov);
    assert_eq!(runs.len(), 2);
    assert_eq!(runs[0].text, "red");
    assert_eq!((runs[0].fg.r, runs[0].fg.g, runs[0].fg.b), (205, 0, 0));
    assert_eq!(runs[0].width, 3);
    assert_eq!(runs[1].text, "grn");
    assert_eq!((runs[1].bg.r, runs[1].bg.g, runs[1].bg.b), (0, 205, 0));
}

#[test]
fn a_wide_glyph_appears_once_and_counts_two_columns() {
    let p = default_palette();
    let ov = no_overrides();
    let mut wide = plain();
    wide.wide = true;
    let mut spacer = plain();
    spacer.spacer = true;
    let mut accented = text_cell('e');
    accented.zerowidth = vec!['\u{301}'];
    let row = vec![
        cell('日', TermColor::Named(FOREGROUND), TermColor::Named(BACKGROUND), wide),
        cell(' ', TermColor::Named(FOREGROUND), TermColor::Named(BACKGROUND), spacer),
        accented,
    ];
    let runs = runs_of(&row, &p, &ov);
    assert_eq!(runs.len(), 1);
    assert_eq!(runs[0].text, "日e\u{301}");
    assert_eq!(runs[0].width, 3);
}

#[test]
fn an_empty_row_has_no_runs() {
    assert!(runs_of(&[], &default_palette(), &no_overrides()).is_empty());
}

#[test]
fn a_signal_interrupted_read_is_a_retry_not_an_eof() {
    // interrupted once, delivers, then dries up
    assert_eq!(read_step(0, IoOutcome::Interrupted), ReadStep::Retry);
    assert_eq!(read_step(0, IoOutcome::Done(2)), ReadStep::Feed { total: 2, more: true });
    assert_eq!(read_step(2, IoOutcome::WouldBlock), ReadStep::Stop);
    assert_eq!(read_step(2, IoOutcome::Done(0)), ReadStep::Eof);
    assert_eq!(read_step(2, IoOutcome::Failed), ReadStep::Eof);
}

#[test]
fn reads_stop_at_the_cap() {
    assert_eq!(
        read_step(READ_CAP - 10, IoOutcome::Done(10)),
        ReadStep::Feed { total: READ_CAP, more: false }
    );
}

#[test]
fn a_signal_interrupted_write_keeps_the_queue() {
    let mut pending: VecDeque<u8> = b"abc".iter().copied().collect();
    assert!(write_step(&mut pending, IoOutcome::Interrupted));
    assert!(!write_step(&mut pending, IoOutcome::WouldBlock));
    assert_eq!(pending.len(), 3, "queued input must survive a signal");
    assert!(write_step(&mut pending, IoOutcome::Done(2)));
    assert_eq!(pending.iter().copied().collect::<Vec<u8>>(), b"c".to_vec());
    assert!(!write_step(&mut pending, IoOutcome::Failed));
    assert!(pending.is_empty(), "a dead pty forfeits the queue");
}

#[test]
fn queued_input_stops_at_the_cap() {
    let mut pending: VecDeque<u8> = VecDeque::new();
    assert!(queue_input(&mut pending, b"abc"));
    assert_eq!(pending.len(), 3);
    let mut full: VecDeque<u8> = std::iter::repeat(0u8).take(WRITE_CAP - 1).collect();
    assert!(!queue_input(&mut full, b"xyz"));
    assert_eq!(full.len(), WRITE_CAP);
    assert_eq!(full.back(), Some(&b'x'));
}

#[test]
fn mouse_modes_pick_the_most_talkative() {
    assert_eq!(mouse_protocol(false, false, false), None);
    assert_eq!(mouse_protocol(false, false, true), Some("click"));
    assert_eq!(mouse_protocol(false, true, true), Some("drag"));
    assert_eq!(mouse_protocol(true, true, true), Some("motion"));
    assert_eq!(mouse_encoding(false, false), "normal");
    assert_eq!(mouse_encoding(true, true), "sgr");
    assert_eq!(mouse_encoding(false, true), "utf8");
}

#[test]
fn terminals_are_at_least_two_by_two() {
    assert_eq!(clamp_size(0, 1), (2, 2));
    assert_eq!(clamp_size(80, 24), (80, 24));
}
