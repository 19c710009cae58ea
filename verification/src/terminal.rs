//! the terminal view's side of the vt engine: the color table, how a
//! cell's attributes become a style, how a display row becomes runs of
//! equally styled text, and the bookkeeping of the bytes that flow to and
//! from the child. the engine itself (the vt state machine, the pty) runs
//! in the companion crate and hands this module plain cells.
//!
//! colors resolve in two layers: the terminal's own runtime table (osc 4
//! and friends) wins, then the palette set from lua (the theme owns the
//! 16 base colors).

use std::collections::VecDeque;

use vstd::prelude::*;

use crate::renderer::Color;
use crate::strings::push_char;

verus! {

/// run flags crossing to lua, a stable little language of our own
pub const FLAG_BOLD: u8 = 1;
pub const FLAG_ITALIC: u8 = 2;
pub const FLAG_UNDERLINE: u8 = 4;
pub const FLAG_STRIKEOUT: u8 = 8;

/// entries in the color table: 256 indexed colors, then the named ones
pub const PALETTE_SIZE: usize = 269;
/// positions of the named colors in the table
pub const FOREGROUND: usize = 256;
pub const BACKGROUND: usize = 257;
pub const CURSOR: usize = 258;
pub const DIM_BLACK: usize = 259;
pub const BRIGHT_FOREGROUND: usize = 267;
pub const DIM_FOREGROUND: usize = 268;

/// most bytes fed to the vt engine per update; a chattier child keeps the
/// rest in the kernel's pty buffer, so one update never stalls a frame
pub const READ_CAP: usize = 1048576;
/// the largest chunk one read hands over
pub const READ_CHUNK: usize = 65536;
/// cap on input queued toward the child while its pty is full
pub const WRITE_CAP: usize = 4194304;

/// an opaque color as the vt engine knows it
#[derive(Copy, Clone, PartialEq, Eq, Debug, Structural)]
pub struct Rgb {
    pub r: u8,
    pub g: u8,
    pub b: u8,
}

/// two thirds of each channel, rounded down
pub open spec fn dim_spec(c: Rgb) -> Rgb {
    Rgb { r: (c.r * 2 / 3) as u8, g: (c.g * 2 / 3) as u8, b: (c.b * 2 / 3) as u8 }
}

/// the faint version of a color
pub fn dim(c: Rgb) -> (d: Rgb)
    ensures
        d == dim_spec(c),
{
    Rgb {
        r: (c.r as u32 * 2 / 3) as u8,
        g: (c.g as u32 * 2 / 3) as u8,
        b: (c.b as u32 * 2 / 3) as u8,
    }
}

/// xterm's sixteen base colors
pub open spec fn base_color(i: int) -> Rgb {
    let (r, g, b): (u8, u8, u8) = if i == 0 {
        (0, 0, 0)
    } else if i == 1 {
        (205, 0, 0)
    } else if i == 2 {
        (0, 205, 0)
    } else if i == 3 {
        (205, 205, 0)
    } else if i == 4 {
        (0, 0, 238)
    } else if i == 5 {
        (205, 0, 205)
    } else if i == 6 {
        (0, 205, 205)
    } else if i == 7 {
        (229, 229, 229)
    } else if i == 8 {
        (127, 127, 127)
    } else if i == 9 {
        (255, 0, 0)
    } else if i == 10 {
        (0, 255, 0)
    } else if i == 11 {
        (255, 255, 0)
    } else if i == 12 {
        (92, 92, 255)
    } else if i == 13 {
        (255, 0, 255)
    } else if i == 14 {
        (0, 255, 255)
    } else {
        (255, 255, 255)
    };
    Rgb { r, g, b }
}

/// one axis of the 6x6x6 color cube: 0, then 95 up to 255 in steps of 40
pub open spec fn cube_level(v: int) -> u8 {
    if v == 0 {
        0
    } else {
        (v * 40 + 55) as u8
    }
}

/// the stock foreground
pub open spec fn stock_foreground() -> Rgb {
    Rgb { r: 229, g: 229, b: 229 }
}

/// entry `i` of xterm's stock table: the base colors, the cube, the gray
/// ramp, then the named colors (foreground, background, cursor, the eight
/// dim colors, bright foreground, dim foreground)
pub open spec fn default_color(i: int) -> Rgb {
    if i < 16 {
        base_color(i)
    } else if i < 232 {
        let k = i - 16;
        Rgb { r: cube_level(k / 36), g: cube_level(k / 6 % 6), b: cube_level(k % 6) }
    } else if i < 256 {
        let g = (8 + (i - 232) * 10) as u8;
        Rgb { r: g, g, b: g }
    } else if i == BACKGROUND {
        Rgb { r: 0, g: 0, b: 0 }
    } else if DIM_BLACK <= i < DIM_BLACK + 8 {
        dim_spec(base_color(i - DIM_BLACK))
    } else if i == DIM_FOREGROUND {
        dim_spec(stock_foreground())
    } else {
        stock_foreground()
    }
}

/// the table every terminal starts from
pub open spec fn default_palette_spec() -> Seq<Rgb> {
    Seq::new(PALETTE_SIZE as nat, |i: int| default_color(i))
}

/// the theme's version of table entry `i`: the sixteen base colors and
/// the named colors follow the theme (the dim ones dimmed from it), the
/// cube and the gray ramp stay as they were
pub open spec fn themed_color(old: Seq<Rgb>, base: Seq<Color>, fg: Color, bg: Color, i: int) -> Rgb {
    if i < 16 {
        rgb_of(base[i])
    } else if i == FOREGROUND || i == CURSOR || i == BRIGHT_FOREGROUND {
        rgb_of(fg)
    } else if i == BACKGROUND {
        rgb_of(bg)
    } else if DIM_BLACK <= i < DIM_BLACK + 8 {
        dim_spec(rgb_of(base[i - DIM_BLACK]))
    } else if i == DIM_FOREGROUND {
        dim_spec(rgb_of(fg))
    } else {
        old[i]
    }
}

/// a color without its alpha
pub open spec fn rgb_of(c: Color) -> Rgb {
    Rgb { r: c.r, g: c.g, b: c.b }
}

/// an opaque color
pub open spec fn opaque(c: Rgb) -> Color {
    Color { r: c.r, g: c.g, b: c.b, a: 255 }
}

/// the color table a terminal resolves indexed and named colors through
pub struct Palette {
    colors: Vec<Rgb>,
}

impl View for Palette {
    type V = Seq<Rgb>;

    closed spec fn view(&self) -> Seq<Rgb> {
        self.colors@
    }
}

impl Palette {
    #[verifier::type_invariant]
    closed spec fn inv(self) -> bool {
        self.colors@.len() == PALETTE_SIZE
    }

    /// entry `index` of the table
    pub fn get(&self, index: usize) -> (c: Rgb)
        requires
            index < PALETTE_SIZE,
        ensures
            c == self@[index as int],
    {
        proof {
            use_type_invariant(self);
        }
        self.colors[index]
    }

    /// the theme's colors: the sixteen base colors, the default foreground
    /// (also the cursor and the bright foreground) and background, and the
    /// dim colors derived from them; the cube and the gray ramp are fixed
    /// by the protocol and stay
    pub fn set_palette(&mut self, base: &[Color; 16], fg: Color, bg: Color)
        ensures
            final(self)@ == Seq::new(
                PALETTE_SIZE as nat,
                |i: int| themed_color(old(self)@, base@, fg, bg, i),
            ),
    {
        proof {
            use_type_invariant(&*self);
        }
        let ghost before = self@;
        let mut colors: Vec<Rgb> = Vec::new();
        let mut i: usize = 0;
        while i < PALETTE_SIZE
            invariant
                i <= PALETTE_SIZE,
                before.len() == PALETTE_SIZE,
                before == self@,
                colors@.len() == i,
                forall|k: int| 0 <= k < i ==> colors@[k] == themed_color(before, base@, fg, bg, k),
            decreases PALETTE_SIZE - i,
        {
            let c = if i < 16 {
                Rgb { r: base[i].r, g: base[i].g, b: base[i].b }
            } else if i == FOREGROUND || i == CURSOR || i == BRIGHT_FOREGROUND {
                Rgb { r: fg.r, g: fg.g, b: fg.b }
            } else if i == BACKGROUND {
                Rgb { r: bg.r, g: bg.g, b: bg.b }
            } else if DIM_BLACK <= i && i < DIM_BLACK + 8 {
                let b = base[i - DIM_BLACK];
                dim(Rgb { r: b.r, g: b.g, b: b.b })
            } else if i == DIM_FOREGROUND {
                dim(Rgb { r: fg.r, g: fg.g, b: fg.b })
            } else {
                self.get(i)
            };
            colors.push(c);
            i = i + 1;
        }
        assert(colors@ =~= Seq::new(
            PALETTE_SIZE as nat,
            |i: int| themed_color(before, base@, fg, bg, i),
        ));
        self.colors = colors;
    }
}

fn base_color_exec(i: usize) -> (c: Rgb)
    requires
        i < 16,
    ensures
        c == base_color(i as int),
{
    let (r, g, b): (u8, u8, u8) = if i == 0 {
        (0, 0, 0)
    } else if i == 1 {
        (205, 0, 0)
    } else if i == 2 {
        (0, 205, 0)
    } else if i == 3 {
        (205, 205, 0)
    } else if i == 4 {
        (0, 0, 238)
    } else if i == 5 {
        (205, 0, 205)
    } else if i == 6 {
        (0, 205, 205)
    } else if i == 7 {
        (229, 229, 229)
    } else if i == 8 {
        (127, 127, 127)
    } else if i == 9 {
        (255, 0, 0)
    } else if i == 10 {
        (0, 255, 0)
    } else if i == 11 {
        (255, 255, 0)
    } else if i == 12 {
        (92, 92, 255)
    } else if i == 13 {
        (255, 0, 255)
    } else if i == 14 {
        (0, 255, 255)
    } else {
        (255, 255, 255)
    };
    Rgb { r, g, b }
}

fn cube_level_exec(v: usize) -> (l: u8)
    requires
        v < 6,
    ensures
        l == cube_level(v as int),
{
    if v == 0 {
        0
    } else {
        (v * 40 + 55) as u8
    }
}

/// xterm's stock colors; lua replaces the parts a theme owns the moment
/// the view exists, but a bare terminal must still resolve every index
pub fn default_palette() -> (p: Palette)
    ensures
        p@ == default_palette_spec(),
{
    let mut colors: Vec<Rgb> = Vec::new();
    let mut i: usize = 0;
    while i < 16
        invariant
            i <= 16,
            colors@.len() == i,
            forall|k: int| 0 <= k < i ==> colors@[k] == default_color(k),
        decreases 16 - i,
    {
        colors.push(base_color_exec(i));
        i = i + 1;
    }
    // the 6x6x6 color cube
    let mut i: usize = 0;
    while i < 216
        invariant
            i <= 216,
            colors@.len() == 16 + i,
            forall|k: int| 0 <= k < 16 + i ==> colors@[k] == default_color(k),
        decreases 216 - i,
    {
        colors.push(
            Rgb { r: cube_level_exec(i / 36), g: cube_level_exec(i / 6 % 6), b: cube_level_exec(i % 6) },
        );
        i = i + 1;
    }
    // the gray ramp
    let mut i: usize = 0;
    while i < 24
        invariant
            i <= 24,
            colors@.len() == 232 + i,
            forall|k: int| 0 <= k < 232 + i ==> colors@[k] == default_color(k),
        decreases 24 - i,
    {
        let g = (8 + i * 10) as u8;
        colors.push(Rgb { r: g, g, b: g });
        i = i + 1;
    }
    let fg = Rgb { r: 229, g: 229, b: 229 };
    colors.push(fg);
    colors.push(Rgb { r: 0, g: 0, b: 0 });
    colors.push(fg);
    let mut i: usize = 0;
    while i < 8
        invariant
            i <= 8,
            colors@.len() == DIM_BLACK + i,
            forall|k: int| 0 <= k < DIM_BLACK + i ==> colors@[k] == default_color(k),
        decreases 8 - i,
    {
        assert(colors@[i as int] == default_color(i as int));
        let d = dim(colors[i]);
        assert(default_color(DIM_BLACK + i) == dim_spec(base_color(i as int)));
        colors.push(d);
        i = i + 1;
    }
    colors.push(fg);
    colors.push(dim(fg));
    assert(colors@ =~= default_palette_spec());
    Palette { colors }
}

/// a color as a cell carries it: spelled out, or a position in the table
/// (a named color by its position after the 256 indexed ones)
#[derive(Copy, Clone, PartialEq, Eq, Debug, Structural)]
pub enum TermColor {
    Spec(Rgb),
    Named(usize),
    Indexed(u8),
}

/// a named color points into the table
pub open spec fn color_ok(c: TermColor) -> bool {
    match c {
        TermColor::Named(n) => n < PALETTE_SIZE,
        _ => true,
    }
}

/// the runtime table (osc 4 and friends) first, then the palette
pub open spec fn lookup_spec(palette: Seq<Rgb>, overrides: Seq<Option<Rgb>>, index: int) -> Rgb {
    match overrides[index] {
        Some(c) => c,
        None => palette[index],
    }
}

pub open spec fn resolve_spec(palette: Seq<Rgb>, overrides: Seq<Option<Rgb>>, c: TermColor) -> Color {
    opaque(
        match c {
            TermColor::Spec(rgb) => rgb,
            TermColor::Named(n) => lookup_spec(palette, overrides, n as int),
            TermColor::Indexed(i) => lookup_spec(palette, overrides, i as int),
        },
    )
}

/// table entry `index`: the runtime override when the terminal has one,
/// else the palette's
pub fn lookup(palette: &Palette, overrides: &[Option<Rgb>], index: usize) -> (c: Rgb)
    requires
        index < PALETTE_SIZE,
        overrides@.len() == PALETTE_SIZE,
    ensures
        c == lookup_spec(palette@, overrides@, index as int),
{
    match overrides[index] {
        Some(c) => c,
        None => palette.get(index),
    }
}

/// the opaque color a cell color stands for
pub fn resolve(palette: &Palette, overrides: &[Option<Rgb>], color: TermColor) -> (c: Color)
    requires
        color_ok(color),
        overrides@.len() == PALETTE_SIZE,
    ensures
        c == resolve_spec(palette@, overrides@, color),
{
    let rgb = match color {
        TermColor::Spec(rgb) => rgb,
        TermColor::Named(name) => lookup(palette, overrides, name),
        TermColor::Indexed(index) => lookup(palette, overrides, index as usize),
    };
    Color { r: rgb.r, g: rgb.g, b: rgb.b, a: 255 }
}

/// the attributes of a cell the view cares about
#[derive(Copy, Clone, PartialEq, Eq, Debug, Structural)]
pub struct CellFlags {
    pub bold: bool,
    pub italic: bool,
    /// any kind of underline
    pub underline: bool,
    pub strikeout: bool,
    pub dim: bool,
    pub inverse: bool,
    pub hidden: bool,
    /// a glyph two columns wide
    pub wide: bool,
    /// the placeholder after (or before, at a line end) a wide glyph
    pub spacer: bool,
}

/// one grid cell: its char, any zero-width chars riding on it, its colors
/// and its attributes
#[derive(Clone, Debug)]
pub struct Cell {
    pub c: char,
    pub zerowidth: Vec<char>,
    pub fg: TermColor,
    pub bg: TermColor,
    pub flags: CellFlags,
}

/// the run flags of a cell: the sum of the flags of its styles
pub open spec fn style_flags(f: CellFlags) -> u8 {
    ((if f.bold { FLAG_BOLD } else { 0 }) + (if f.italic { FLAG_ITALIC } else { 0 }) + (if f.underline {
        FLAG_UNDERLINE
    } else {
        0
    }) + (if f.strikeout { FLAG_STRIKEOUT } else { 0 })) as u8
}

/// foreground, background and run flags of a cell: its colors resolved,
/// the foreground faded when dim, the two swapped when inverse, and the
/// glyph painted in the background color when hidden
pub open spec fn style_spec(palette: Seq<Rgb>, overrides: Seq<Option<Rgb>>, cell: Cell) -> (Color, Color, u8) {
    let fg0 = resolve_spec(palette, overrides, cell.fg);
    let bg0 = resolve_spec(palette, overrides, cell.bg);
    let fg1 = if cell.flags.dim { opaque(dim_spec(rgb_of(fg0))) } else { fg0 };
    let (fg2, bg2) = if cell.flags.inverse { (bg0, fg1) } else { (fg1, bg0) };
    let fg3 = if cell.flags.hidden { bg2 } else { fg2 };
    (fg3, bg2, style_flags(cell.flags))
}

/// faint text (sgr 2): a dim cell's foreground is drawn at two thirds of
/// its resolved color, channel by channel and opaque; inverse then swaps it
/// to the background and hidden paints the foreground in the background.
/// so dimming changes how any cell whose color is not black is drawn
pub proof fn lemma_dim_draws_faint(palette: Seq<Rgb>, overrides: Seq<Option<Rgb>>, cell: Cell)
    requires
        cell.flags.dim,
    ensures
        ({
            let fg = resolve_spec(palette, overrides, cell.fg);
            let bg = resolve_spec(palette, overrides, cell.bg);
            let faint = Color { r: (fg.r * 2 / 3) as u8, g: (fg.g * 2 / 3) as u8, b: (fg.b * 2 / 3) as u8, a: 255 };
            let style = style_spec(palette, overrides, cell);
            &&& style.1 == (if cell.flags.inverse { faint } else { bg })
            &&& style.0 == (if cell.flags.hidden { style.1 } else if cell.flags.inverse { bg } else { faint })
        }),
        ({
            let fg = resolve_spec(palette, overrides, cell.fg);
            let bright = Cell { flags: CellFlags { dim: false, ..cell.flags }, ..cell };
            (fg.r != 0 || fg.g != 0 || fg.b != 0) && !cell.flags.inverse && !cell.flags.hidden
                ==> style_spec(palette, overrides, cell).0 != style_spec(palette, overrides, bright).0
        }),
{
}

/// how any cell is colored: inverse swaps its (possibly faint) foreground
/// with its background, and hidden text takes the background color, so it
/// cannot be seen
pub proof fn lemma_inverse_and_hidden_colors(palette: Seq<Rgb>, overrides: Seq<Option<Rgb>>, cell: Cell)
    ensures
        ({
            let fg = resolve_spec(palette, overrides, cell.fg);
            let bg = resolve_spec(palette, overrides, cell.bg);
            let shown = if cell.flags.dim {
                Color { r: (fg.r * 2 / 3) as u8, g: (fg.g * 2 / 3) as u8, b: (fg.b * 2 / 3) as u8, a: 255 }
            } else {
                fg
            };
            let style = style_spec(palette, overrides, cell);
            &&& style.1 == (if cell.flags.inverse { shown } else { bg })
            &&& style.0 == (if cell.flags.hidden { style.1 } else if cell.flags.inverse { bg } else { shown })
        }),
{
}

pub fn style_of(palette: &Palette, overrides: &[Option<Rgb>], cell: &Cell) -> (style: (Color, Color, u8))
    requires
        color_ok(cell.fg),
        color_ok(cell.bg),
        overrides@.len() == PALETTE_SIZE,
    ensures
        style == style_spec(palette@, overrides@, *cell),
{
    let mut fg = resolve(palette, overrides, cell.fg);
    let mut bg = resolve(palette, overrides, cell.bg);
    if cell.flags.dim {
        let d = dim(Rgb { r: fg.r, g: fg.g, b: fg.b });
        fg = Color { r: d.r, g: d.g, b: d.b, a: 255 };
    }
    if cell.flags.inverse {
        let t = fg;
        fg = bg;
        bg = t;
    }
    if cell.flags.hidden {
        fg = bg;
    }
    let mut flags: u8 = 0;
    if cell.flags.bold {
        assert(0u8 | 1u8 == 1u8) by (bit_vector);
        flags = flags | FLAG_BOLD;
    }
    assert(flags == (if cell.flags.bold { 1int } else { 0int }));
    if cell.flags.italic {
        assert(flags < 2 ==> flags | 2u8 == flags + 2) by (bit_vector);
        flags = flags | FLAG_ITALIC;
    }
    assert(flags == (if cell.flags.bold { 1int } else { 0int }) + (if cell.flags.italic { 2int } else { 0int }));
    if cell.flags.underline {
        assert(flags < 4 ==> flags | 4u8 == flags + 4) by (bit_vector);
        flags = flags | FLAG_UNDERLINE;
    }
    assert(flags == (if cell.flags.bold { 1int } else { 0int }) + (if cell.flags.italic { 2int } else { 0int })
        + (if cell.flags.underline { 4int } else { 0int }));
    if cell.flags.strikeout {
        assert(flags < 8 ==> flags | 8u8 == flags + 8) by (bit_vector);
        flags = flags | FLAG_STRIKEOUT;
    }
    (fg, bg, flags)
}

/// a horizontal stretch of cells sharing one style. `width` counts
/// terminal columns, not chars: a wide cjk glyph is one char, two
/// columns, and the view realigns to the grid after every run so pixel
/// drift can never accumulate
#[derive(Debug, PartialEq, Eq)]
pub struct Run {
    pub text: String,
    pub fg: Color,
    pub bg: Color,
    pub flags: u8,
    pub width: usize,
}

/// a run as text, colors, flags and width
pub open spec fn run_view(r: Run) -> (Seq<char>, Color, Color, u8, int) {
    (r.text@, r.fg, r.bg, r.flags, r.width as int)
}

/// the chars a cell contributes: its own, then its zero-width ones
pub open spec fn cell_text(cell: Cell) -> Seq<char> {
    seq![cell.c] + cell.zerowidth@
}

/// the runs of a row: spacers contribute nothing; a cell styled like the
/// run before it joins that run, any other cell starts a run of its own
pub open spec fn runs_spec(cells: Seq<Cell>, palette: Seq<Rgb>, overrides: Seq<Option<Rgb>>) -> Seq<(Seq<char>, Color, Color, u8, int)>
    decreases cells.len(),
{
    if cells.len() == 0 {
        Seq::empty()
    } else {
        let before = runs_spec(cells.drop_last(), palette, overrides);
        let cell = cells.last();
        if cell.flags.spacer {
            before
        } else {
            let (fg, bg, flags) = style_spec(palette, overrides, cell);
            let width: int = if cell.flags.wide { 2 } else { 1 };
            if before.len() > 0 && before.last().1 == fg && before.last().2 == bg && before.last().3 == flags {
                let last = before.last();
                before.drop_last().push((last.0 + cell_text(cell), fg, bg, flags, last.4 + width))
            } else {
                before.push((cell_text(cell), fg, bg, flags, width))
            }
        }
    }
}

fn push_chars(s: &mut String, chars: &Vec<char>)
    ensures
        final(s)@ == old(s)@ + chars@,
{
    let mut i: usize = 0;
    while i < chars.len()
        invariant
            i <= chars@.len(),
            s@ == old(s)@ + chars@.take(i as int),
        decreases chars@.len() - i,
    {
        push_char(s, chars[i]);
        assert(chars@.take(i + 1) =~= chars@.take(i as int).push(chars@[i as int]));
        i = i + 1;
    }
    assert(chars@.take(i as int) =~= chars@);
}

/// one display row as style runs
pub fn runs_of(cells: &[Cell], palette: &Palette, overrides: &[Option<Rgb>]) -> (runs: Vec<Run>)
    requires
        cells@.len() <= isize::MAX,
        overrides@.len() == PALETTE_SIZE,
        forall|k: int| 0 <= k < cells@.len() ==> color_ok(#[trigger] cells@[k].fg) && color_ok(cells@[k].bg),
    ensures
        runs@.map_values(|r: Run| run_view(r)) == runs_spec(cells@, palette@, overrides@),
        spacers_follow_wide(cells@) ==> runs_width(runs_spec(cells@, palette@, overrides@)) <= cells@.len(),
{
    let mut runs: Vec<Run> = Vec::new();
    let mut i: usize = 0;
    while i < cells.len()
        invariant
            i <= cells@.len(),
            cells@.len() <= isize::MAX,
            overrides@.len() == PALETTE_SIZE,
            forall|k: int| 0 <= k < cells@.len() ==> color_ok(#[trigger] cells@[k].fg) && color_ok(cells@[k].bg),
            runs@.map_values(|r: Run| run_view(r)) == runs_spec(cells@.take(i as int), palette@, overrides@),
            forall|k: int| 0 <= k < runs@.len() ==> #[trigger] runs@[k].width <= 2 * i,
        decreases cells@.len() - i,
    {
        let ghost prefix = cells@.take(i as int);
        assert(cells@.take(i + 1).drop_last() =~= prefix);
        assert(cells@.take(i + 1).last() == cells@[i as int]);
        let cell = &cells[i];
        if !cell.flags.spacer {
            let width: usize = if cell.flags.wide { 2 } else { 1 };
            let (fg, bg, flags) = style_of(palette, overrides, cell);
            let n = runs.len();
            if n > 0 && runs[n - 1].fg == fg && runs[n - 1].bg == bg && runs[n - 1].flags == flags {
                let ghost before = runs@;
                let mut run = runs.pop().unwrap();
                let ghost old_text = run.text@;
                push_char(&mut run.text, cell.c);
                run.width = run.width + width;
                push_chars(&mut run.text, &cell.zerowidth);
                assert(run.text@ =~= old_text + cell_text(*cell));
                runs.push(run);
                assert(runs@ =~= before.drop_last().push(run));
                assert(runs@.map_values(|r: Run| run_view(r)) =~= before.map_values(|r: Run| run_view(r)).drop_last().push(run_view(run)));
            } else {
                let ghost before = runs@;
                let mut text = String::new();
                push_char(&mut text, cell.c);
                push_chars(&mut text, &cell.zerowidth);
                assert(text@ =~= cell_text(*cell));
                let run = Run { text, fg, bg, flags, width };
                runs.push(run);
                assert(runs@.map_values(|r: Run| run_view(r)) =~= before.map_values(|r: Run| run_view(r)).push(run_view(run)));
            }
        }
        i = i + 1;
    }
    assert(cells@.take(i as int) =~= cells@);
    proof {
        if spacers_follow_wide(cells@) {
            lemma_runs_fit_the_row(cells@, palette@, overrides@);
        }
    }
    runs
}

/// terminal-initiated happenings the view may care about
#[derive(Debug, PartialEq, Eq)]
pub enum TermEvent {
    Title(String),
    ResetTitle,
    Bell,
    /// osc 52: the application asked to place text on the clipboard;
    /// whether to honor it is the lua side's decision
    Clipboard(String),
}

/// what changed since damage was last taken, in display rows
#[derive(Debug, PartialEq, Eq)]
pub enum Damage {
    Full,
    /// damaged rows, top to bottom; empty means nothing changed
    Rows(Vec<usize>),
}

/// what to run in a terminal: `argv` as given (never a shell around it;
/// an empty argv means the user's own login shell), in `cwd`, with `env`
/// over the inherited environment
pub struct TerminalOptions {
    pub argv: Vec<String>,
    pub cwd: Option<String>,
    pub env: Vec<(String, String)>,
}

/// a terminal is never smaller than two by two cells
pub fn clamp_size(cols: u16, rows: u16) -> (size: (u16, u16))
    ensures
        size.0 == (if cols < 2 { 2 } else { cols }),
        size.1 == (if rows < 2 { 2 } else { rows }),
{
    (if cols < 2 { 2 } else { cols }, if rows < 2 { 2 } else { rows })
}

/// how a read or write on the pty went
#[derive(Copy, Clone, PartialEq, Eq, Debug, Structural)]
pub enum IoOutcome {
    /// this many bytes moved
    Done(usize),
    /// nothing can move right now
    WouldBlock,
    /// a signal arrived first: worth trying again
    Interrupted,
    /// the pty is gone
    Failed,
}

/// what the read loop does after one read
#[derive(Copy, Clone, PartialEq, Eq, Debug, Structural)]
pub enum ReadStep {
    /// hand the bytes to the vt engine; `total` bytes have now arrived in
    /// this update, and `more` says whether to read on
    Feed { total: usize, more: bool },
    /// read again
    Retry,
    /// nothing more for now
    Stop,
    /// the child hung up: end of stream
    Eof,
}

/// the read loop's decision after one read, `total` bytes into this
/// update: a zero read or a dead pty is the end of the stream, a full read
/// is fed to the engine until the cap is reached, an interrupted read is a
/// retry and never an eof
pub fn read_step(total: usize, outcome: IoOutcome) -> (step: ReadStep)
    requires
        total < READ_CAP,
        outcome matches IoOutcome::Done(n) ==> n <= READ_CHUNK,
    ensures
        step == match outcome {
            IoOutcome::Done(n) => if n == 0 {
                ReadStep::Eof
            } else {
                ReadStep::Feed { total: (total + n) as usize, more: total + n < READ_CAP }
            },
            IoOutcome::WouldBlock => ReadStep::Stop,
            IoOutcome::Interrupted => ReadStep::Retry,
            IoOutcome::Failed => ReadStep::Eof,
        },
{
    match outcome {
        IoOutcome::Done(0) => ReadStep::Eof,
        IoOutcome::Done(n) => {
            let total = total + n;
            ReadStep::Feed { total, more: total < READ_CAP }
        },
        IoOutcome::WouldBlock => ReadStep::Stop,
        IoOutcome::Interrupted => ReadStep::Retry,
        IoOutcome::Failed => ReadStep::Eof,
    }
}

/// the flush loop's bookkeeping after one write of the front of `pending`:
/// written bytes leave the queue, a dead pty forfeits it (that input can
/// never be delivered), and an interrupted write keeps it whole. returns
/// whether to write again
pub fn write_step(pending: &mut VecDeque<u8>, outcome: IoOutcome) -> (again: bool)
    requires
        outcome matches IoOutcome::Done(n) ==> n <= old(pending)@.len(),
    ensures
        again == match outcome {
            IoOutcome::Done(n) => n > 0,
            IoOutcome::Interrupted => true,
            _ => false,
        },
        final(pending)@ == match outcome {
            IoOutcome::Done(n) => old(pending)@.skip(n as int),
            IoOutcome::Failed => Seq::empty(),
            _ => old(pending)@,
        },
{
    match outcome {
        IoOutcome::Done(n) => {
            let mut k: usize = 0;
            while k < n
                invariant
                    k <= n,
                    n <= old(pending)@.len(),
                    pending@ == old(pending)@.skip(k as int),
                decreases n - k,
            {
                pending.pop_front();
                k = k + 1;
            }
            n > 0
        },
        IoOutcome::Interrupted => true,
        IoOutcome::Failed => {
            pending.clear();
            false
        },
        IoOutcome::WouldBlock => false,
    }
}

/// how many of `len` bytes fit in a queue already holding `queued`
pub open spec fn accepted(queued: int, len: int) -> int {
    let room = if queued < WRITE_CAP { WRITE_CAP - queued } else { 0 };
    if len < room {
        len
    } else {
        room
    }
}

/// queues bytes for the child (keyboard input, paste), as many as fit
/// under the cap; returns false if the tail was refused
pub fn queue_input(pending: &mut VecDeque<u8>, bytes: &[u8]) -> (all: bool)
    ensures
        final(pending)@ == old(pending)@ + bytes@.take(accepted(old(pending)@.len() as int, bytes@.len() as int)),
        all == (accepted(old(pending)@.len() as int, bytes@.len() as int) == bytes@.len()),
{
    let room = WRITE_CAP.saturating_sub(pending.len());
    let take = if bytes.len() < room { bytes.len() } else { room };
    let mut i: usize = 0;
    while i < take
        invariant
            i <= take,
            take <= bytes@.len(),
            pending@ == old(pending)@ + bytes@.take(i as int),
        decreases take - i,
    {
        pending.push_back(bytes[i]);
        assert(bytes@.take(i + 1) =~= bytes@.take(i as int).push(bytes@[i as int]));
        i = i + 1;
    }
    take == bytes.len()
}

/// which mouse reporting the app asked for: none, "click" (press and
/// release), "drag" (plus motion while a button is held), or "motion"
/// (every movement); the most talkative mode set wins
pub fn mouse_protocol(motion: bool, drag: bool, click: bool) -> (p: Option<&'static str>)
    ensures
        match p {
            Some(name) => name@ == (if motion {
                "motion"@
            } else if drag {
                "drag"@
            } else {
                "click"@
            }) && (motion || drag || click),
            None => !motion && !drag && !click,
        },
{
    if motion {
        Some("motion")
    } else if drag {
        Some("drag")
    } else if click {
        Some("click")
    } else {
        None
    }
}

/// how mouse reports go on the wire: "sgr" (modern, unlimited
/// coordinates), "utf8", or "normal" (legacy bytes, 223 columns)
pub fn mouse_encoding(sgr: bool, utf8: bool) -> (e: &'static str)
    ensures
        e@ == (if sgr {
            "sgr"@
        } else if utf8 {
            "utf8"@
        } else {
            "normal"@
        }),
{
    if sgr {
        "sgr"
    } else if utf8 {
        "utf8"
    } else {
        "normal"
    }
}

/// the chars a row shows: every non-spacer cell's text, left to right
pub open spec fn row_text(cells: Seq<Cell>) -> Seq<char>
    decreases cells.len(),
{
    if cells.len() == 0 {
        Seq::empty()
    } else {
        row_text(cells.drop_last()) + (if cells.last().flags.spacer {
            Seq::empty()
        } else {
            cell_text(cells.last())
        })
    }
}

/// the columns a row's glyphs take: two for a wide one, one otherwise
pub open spec fn row_width(cells: Seq<Cell>) -> int
    decreases cells.len(),
{
    if cells.len() == 0 {
        0
    } else {
        row_width(cells.drop_last()) + (if cells.last().flags.spacer {
            0int
        } else if cells.last().flags.wide {
            2int
        } else {
            1int
        })
    }
}

pub open spec fn runs_text(runs: Seq<(Seq<char>, Color, Color, u8, int)>) -> Seq<char>
    decreases runs.len(),
{
    if runs.len() == 0 {
        Seq::empty()
    } else {
        runs_text(runs.drop_last()) + runs.last().0
    }
}

pub open spec fn runs_width(runs: Seq<(Seq<char>, Color, Color, u8, int)>) -> int
    decreases runs.len(),
{
    if runs.len() == 0 {
        0
    } else {
        runs_width(runs.drop_last()) + runs.last().4
    }
}

/// the runs of a row lose and invent nothing: their texts, one after the
/// other, are the row's text (a wide glyph appears once, its spacer not
/// at all), and their widths add up to the columns the glyphs take
pub proof fn lemma_runs_cover_the_row(cells: Seq<Cell>, palette: Seq<Rgb>, overrides: Seq<Option<Rgb>>)
    ensures
        runs_text(runs_spec(cells, palette, overrides)) == row_text(cells),
        runs_width(runs_spec(cells, palette, overrides)) == row_width(cells),
    decreases cells.len(),
{
    if cells.len() > 0 {
        let before = runs_spec(cells.drop_last(), palette, overrides);
        lemma_runs_cover_the_row(cells.drop_last(), palette, overrides);
        let cell = cells.last();
        if !cell.flags.spacer {
            let (fg, bg, flags) = style_spec(palette, overrides, cell);
            let width: int = if cell.flags.wide { 2 } else { 1 };
            if before.len() > 0 && before.last().1 == fg && before.last().2 == bg && before.last().3 == flags {
                let last = before.last();
                let after = before.drop_last().push((last.0 + cell_text(cell), fg, bg, flags, last.4 + width));
                assert(after.drop_last() =~= before.drop_last());
                assert(runs_text(after) =~= runs_text(before) + cell_text(cell));
            } else {
                let after = before.push((cell_text(cell), fg, bg, flags, width));
                assert(after.drop_last() =~= before);
            }
        } else {
            assert(row_text(cells) =~= row_text(cells.drop_last()));
        }
    }
}

/// two runs drawn alike: same foreground, background and flags
pub open spec fn same_style(a: (Seq<char>, Color, Color, u8, int), b: (Seq<char>, Color, Color, u8, int)) -> bool {
    a.1 == b.1 && a.2 == b.2 && a.3 == b.3
}

/// the grid's layout: every wide glyph is followed by its spacer
pub open spec fn spacers_follow_wide(cells: Seq<Cell>) -> bool {
    forall|k: int|
        0 <= k < cells.len() && (#[trigger] cells[k]).flags.wide && !cells[k].flags.spacer ==> k + 1 < cells.len()
            && cells[k + 1].flags.spacer
}

/// 1 when the n-th cell is a wide glyph whose spacer has not come yet
spec fn open_wide(cells: Seq<Cell>, n: int) -> int {
    if n > 0 && cells[n - 1].flags.wide && !cells[n - 1].flags.spacer {
        1
    } else {
        0
    }
}

proof fn lemma_prefix_width(cells: Seq<Cell>, n: int)
    requires
        spacers_follow_wide(cells),
        0 <= n <= cells.len(),
    ensures
        row_width(cells.take(n)) <= n + open_wide(cells, n),
    decreases n,
{
    if n > 0 {
        lemma_prefix_width(cells, n - 1);
        assert(cells.take(n).drop_last() =~= cells.take(n - 1));
        assert(cells.take(n).last() == cells[n - 1]);
        if n >= 2 && cells[n - 2].flags.wide && !cells[n - 2].flags.spacer {
            assert(cells[n - 1].flags.spacer);
        }
    }
}

/// laid out by the grid, a row's runs never take more columns than the
/// row has cells
pub proof fn lemma_runs_fit_the_row(cells: Seq<Cell>, palette: Seq<Rgb>, overrides: Seq<Option<Rgb>>)
    requires
        spacers_follow_wide(cells),
    ensures
        runs_width(runs_spec(cells, palette, overrides)) <= cells.len(),
{
    lemma_runs_cover_the_row(cells, palette, overrides);
    lemma_prefix_width(cells, cells.len() as int);
    assert(cells.take(cells.len() as int) =~= cells);
}

/// every run shows something: its text is not empty and it takes at
/// least one column
pub proof fn lemma_runs_are_never_empty(cells: Seq<Cell>, palette: Seq<Rgb>, overrides: Seq<Option<Rgb>>)
    ensures
        forall|k: int|
            0 <= k < runs_spec(cells, palette, overrides).len() ==> (#[trigger] runs_spec(cells, palette, overrides)[k]).0.len()
                > 0 && runs_spec(cells, palette, overrides)[k].4 >= 1,
    decreases cells.len(),
{
    if cells.len() > 0 {
        lemma_runs_are_never_empty(cells.drop_last(), palette, overrides);
        let before = runs_spec(cells.drop_last(), palette, overrides);
        let runs = runs_spec(cells, palette, overrides);
        let cell = cells.last();
        if !cell.flags.spacer {
            assert(cell_text(cell).len() > 0);
            assert forall|k: int| 0 <= k < runs.len() implies (#[trigger] runs[k]).0.len() > 0 && runs[k].4 >= 1 by {
                if k < before.len() - 1 {
                    assert(runs[k] == before[k]);
                } else if k == before.len() - 1 && k < runs.len() - 1 {
                    assert(runs[k] == before[k]);
                }
            }
        }
    }
}

/// runs are as long as they can be: two neighbours never share a style
pub proof fn lemma_neighbouring_runs_differ(cells: Seq<Cell>, palette: Seq<Rgb>, overrides: Seq<Option<Rgb>>)
    ensures
        forall|k: int|
            0 <= k < runs_spec(cells, palette, overrides).len() - 1 ==> !same_style(
                #[trigger] runs_spec(cells, palette, overrides)[k],
                runs_spec(cells, palette, overrides)[k + 1],
            ),
    decreases cells.len(),
{
    if cells.len() > 0 {
        lemma_neighbouring_runs_differ(cells.drop_last(), palette, overrides);
        let before = runs_spec(cells.drop_last(), palette, overrides);
        let runs = runs_spec(cells, palette, overrides);
        let cell = cells.last();
        if !cell.flags.spacer {
            let (fg, bg, flags) = style_spec(palette, overrides, cell);
            assert forall|k: int| 0 <= k < runs.len() - 1 implies !same_style(#[trigger] runs[k], runs[k + 1]) by {
                if k < before.len() - 1 {
                    assert(runs[k] == before[k]);
                    if k + 1 < before.len() - 1 || runs.len() > before.len() {
                        assert(runs[k + 1] == before[k + 1]);
                    }
                }
            }
        }
    }
}

/// a theme recolors the base and the named colors only: the color cube
/// and the gray ramp are fixed by the protocol
pub proof fn lemma_a_theme_keeps_the_cube_and_ramp(old: Seq<Rgb>, base: Seq<Color>, fg: Color, bg: Color, i: int)
    requires
        16 <= i < 256,
    ensures
        themed_color(old, base, fg, bg, i) == old[i],
{
}

} // verus!
