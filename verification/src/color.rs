//! Colors of terminal cells: the palette and how cell colors resolve in it.

use vstd::prelude::*;

use crate::config::{hex_color, indexed_colors, parse_hex_color, Colors, Rgb};

verus! {

/// The default text color.
pub open spec fn foreground_rgb() -> Rgb {
    Rgb { r: 0xd8, g: 0xd8, b: 0xd8 }
}

/// The default background color.
pub open spec fn background_rgb() -> Rgb {
    Rgb { r: 0x18, g: 0x18, b: 0x18 }
}

/// The default cursor color.
pub open spec fn cursor_rgb() -> Rgb {
    Rgb { r: 0xd8, g: 0xd8, b: 0xd8 }
}

/// The default background color of selected cells.
pub open spec fn selection_rgb() -> Rgb {
    Rgb { r: 0x3d, g: 0x44, b: 0x52 }
}

/// Normal and bright ANSI colors (default terminal palette).
pub open spec fn ansi_rgb() -> Seq<Rgb> {
    seq![
        Rgb { r: 0x1d, g: 0x1f, b: 0x21 },
        Rgb { r: 0xcc, g: 0x66, b: 0x66 },
        Rgb { r: 0xb5, g: 0xbd, b: 0x68 },
        Rgb { r: 0xf0, g: 0xc6, b: 0x74 },
        Rgb { r: 0x81, g: 0xa2, b: 0xbe },
        Rgb { r: 0xb2, g: 0x94, b: 0xbb },
        Rgb { r: 0x8a, g: 0xbe, b: 0xb7 },
        Rgb { r: 0xc5, g: 0xc8, b: 0xc6 },
        Rgb { r: 0x66, g: 0x66, b: 0x66 },
        Rgb { r: 0xd5, g: 0x4e, b: 0x53 },
        Rgb { r: 0xb9, g: 0xca, b: 0x4a },
        Rgb { r: 0xe7, g: 0xc5, b: 0x47 },
        Rgb { r: 0x7a, g: 0xa6, b: 0xda },
        Rgb { r: 0xc3, g: 0x97, b: 0xd8 },
        Rgb { r: 0x70, g: 0xc0, b: 0xb1 },
        Rgb { r: 0xea, g: 0xea, b: 0xea },
    ]
}

/// Normal and bright ANSI colors (default terminal palette): black, red,
/// green, yellow, blue, magenta, cyan, white, and their bright variants.
pub fn ansi_palette() -> (r: [Rgb; 16])
    ensures
        r@ == ansi_rgb(),
{
    let colors = [
        Rgb { r: 0x1d, g: 0x1f, b: 0x21 },
        Rgb { r: 0xcc, g: 0x66, b: 0x66 },
        Rgb { r: 0xb5, g: 0xbd, b: 0x68 },
        Rgb { r: 0xf0, g: 0xc6, b: 0x74 },
        Rgb { r: 0x81, g: 0xa2, b: 0xbe },
        Rgb { r: 0xb2, g: 0x94, b: 0xbb },
        Rgb { r: 0x8a, g: 0xbe, b: 0xb7 },
        Rgb { r: 0xc5, g: 0xc8, b: 0xc6 },
        Rgb { r: 0x66, g: 0x66, b: 0x66 },
        Rgb { r: 0xd5, g: 0x4e, b: 0x53 },
        Rgb { r: 0xb9, g: 0xca, b: 0x4a },
        Rgb { r: 0xe7, g: 0xc5, b: 0x47 },
        Rgb { r: 0x7a, g: 0xa6, b: 0xda },
        Rgb { r: 0xc3, g: 0x97, b: 0xd8 },
        Rgb { r: 0x70, g: 0xc0, b: 0xb1 },
        Rgb { r: 0xea, g: 0xea, b: 0xea },
    ];
    proof {
        assert(colors@ =~= ansi_rgb());
    }
    colors
}

/// A channel at two thirds of its brightness.
pub open spec fn dim_channel(v: u8) -> u8 {
    (v * 66 / 100) as u8
}

/// A color at two thirds of its brightness.
pub open spec fn dimmed(rgb: Rgb) -> Rgb {
    Rgb { r: dim_channel(rgb.r), g: dim_channel(rgb.g), b: dim_channel(rgb.b) }
}

fn dim_one(v: u8) -> (r: u8)
    ensures
        r == dim_channel(v),
        r == v * 66 / 100,
{
    (v as u32 * 66 / 100) as u8
}

/// A color at two thirds of its brightness.
pub fn dim(rgb: Rgb) -> (r: Rgb)
    ensures
        r == dimmed(rgb),
{
    Rgb { r: dim_one(rgb.r), g: dim_one(rgb.g), b: dim_one(rgb.b) }
}

/// Resolved color set used for drawing.
#[derive(Debug, Clone, Copy, PartialEq)]
pub struct Palette {
    pub foreground: Rgb,
    pub background: Rgb,
    pub cursor: Rgb,
    pub selection: Rgb,
    /// Normal and bright ANSI colors (indices 0..16).
    pub indexed: [Rgb; 16],
}

/// The color that an override denotes, or `default` where there is none or it
/// is not valid.
pub open spec fn overridden(default: Rgb, value: Option<String>) -> Rgb {
    match value {
        Some(text) => match hex_color(text@) {
            Some(rgb) => rgb,
            None => default,
        },
        None => default,
    }
}

fn apply(default: Rgb, value: &Option<String>) -> (r: Rgb)
    ensures
        r == overridden(default, *value),
{
    match value {
        Some(text) => match parse_hex_color(text.as_str()) {
            Some(rgb) => rgb,
            None => default,
        },
        None => default,
    }
}

/// An override that denotes no color.
pub open spec fn is_invalid(value: Option<String>) -> bool {
    value matches Some(text) && hex_color(text@) is None
}

impl Palette {
    /// The built-in colors.
    pub fn new() -> (r: Palette)
        ensures
            r.foreground == foreground_rgb(),
            r.background == background_rgb(),
            r.cursor == cursor_rgb(),
            r.selection == selection_rgb(),
            r.indexed@ == ansi_rgb(),
    {
        Palette {
            foreground: Rgb { r: 0xd8, g: 0xd8, b: 0xd8 },
            background: Rgb { r: 0x18, g: 0x18, b: 0x18 },
            cursor: Rgb { r: 0xd8, g: 0xd8, b: 0xd8 },
            selection: Rgb { r: 0x3d, g: 0x44, b: 0x52 },
            indexed: ansi_palette(),
        }
    }

    /// Default palette with `[colors]` overrides applied; an invalid hex value
    /// keeps the default.
    pub fn with_overrides(colors: &Colors) -> (r: Palette)
        ensures
            r.foreground == overridden(foreground_rgb(), colors.foreground),
            r.background == overridden(background_rgb(), colors.background),
            r.cursor == overridden(cursor_rgb(), colors.cursor),
            r.selection == overridden(selection_rgb(), colors.selection_background),
            forall|i: int|
                0 <= i < 16 ==> #[trigger] r.indexed@[i] == overridden(
                    ansi_rgb()[i],
                    indexed_colors(*colors)[i],
                ),
    {
        let base = Palette::new();
        let slots = colors.indexed();
        let mut indexed = base.indexed;
        let mut i: usize = 0;
        while i < 16
            invariant
                base.indexed@ == ansi_rgb(),
                forall|k: int|
                    0 <= k < 16 ==> *(#[trigger] slots@[k]) == indexed_colors(*colors)[k],
                i <= 16,
                forall|k: int|
                    0 <= k < i ==> #[trigger] indexed@[k] == overridden(
                        ansi_rgb()[k],
                        indexed_colors(*colors)[k],
                    ),
            decreases 16 - i,
        {
            let color = apply(base.indexed[i], slots[i]);
            indexed[i] = color;
            i += 1;
        }
        Palette {
            foreground: apply(base.foreground, &colors.foreground),
            background: apply(base.background, &colors.background),
            cursor: apply(base.cursor, &colors.cursor),
            selection: apply(base.selection, &colors.selection_background),
            indexed,
        }
    }
}

/// All overrides: foreground, background, cursor, selection, then the 16
/// palette slots.
pub open spec fn all_overrides(colors: Colors) -> Seq<Option<String>> {
    seq![
        colors.foreground,
        colors.background,
        colors.cursor,
        colors.selection_background,
    ] + indexed_colors(colors)
}

/// Which of the overrides (foreground, background, cursor, selection, then the
/// 16 palette slots) are not valid and deserve a warning.
pub fn invalid_overrides(colors: &Colors) -> (r: Vec<bool>)
    ensures
        r@.len() == 20,
        forall|i: int| 0 <= i < 20 ==> #[trigger] r@[i] == is_invalid(all_overrides(*colors)[i]),
{
    let mut out: Vec<bool> = Vec::new();
    let ghost all = all_overrides(*colors);
    out.push(invalid(&colors.foreground));
    out.push(invalid(&colors.background));
    out.push(invalid(&colors.cursor));
    out.push(invalid(&colors.selection_background));
    let slots = colors.indexed();
    let mut i: usize = 0;
    while i < 16
        invariant
            all == all_overrides(*colors),
            forall|k: int| 0 <= k < 16 ==> *(#[trigger] slots@[k]) == indexed_colors(*colors)[k],
            i <= 16,
            out@.len() == 4 + i,
            forall|k: int| 0 <= k < 4 + i ==> #[trigger] out@[k] == is_invalid(all[k]),
        decreases 16 - i,
    {
        out.push(invalid(slots[i]));
        i += 1;
    }
    out
}

fn invalid(value: &Option<String>) -> (r: bool)
    ensures
        r == is_invalid(*value),
{
    match value {
        Some(text) => parse_hex_color(text.as_str()).is_none(),
        None => false,
    }
}

impl Default for Palette {
    fn default() -> (r: Palette)
        ensures
            r.foreground == foreground_rgb(),
            r.background == background_rgb(),
            r.cursor == cursor_rgb(),
            r.selection == selection_rgb(),
            r.indexed@ == ansi_rgb(),
    {
        Palette::new()
    }
}

// ---------------------------------------------------------------------------
// Cell colors.

/// The named colors of a terminal.
#[derive(Debug, Clone, Copy, PartialEq, Eq, Structural)]
pub enum NamedColor {
    Black,
    Red,
    Green,
    Yellow,
    Blue,
    Magenta,
    Cyan,
    White,
    BrightBlack,
    BrightRed,
    BrightGreen,
    BrightYellow,
    BrightBlue,
    BrightMagenta,
    BrightCyan,
    BrightWhite,
    Foreground,
    Background,
    Cursor,
    DimBlack,
    DimRed,
    DimGreen,
    DimYellow,
    DimBlue,
    DimMagenta,
    DimCyan,
    DimWhite,
    BrightForeground,
    DimForeground,
}

/// A color as a program asks for it.
#[derive(Debug, Clone, Copy, PartialEq, Eq, Structural)]
pub enum Color {
    Named(NamedColor),
    Spec(Rgb),
    Indexed(u8),
}

/// The slot of a named color in the table of colors that a program can
/// redefine.
pub open spec fn slot_of(named: NamedColor) -> int {
    match named {
        NamedColor::Black => 0,
        NamedColor::Red => 1,
        NamedColor::Green => 2,
        NamedColor::Yellow => 3,
        NamedColor::Blue => 4,
        NamedColor::Magenta => 5,
        NamedColor::Cyan => 6,
        NamedColor::White => 7,
        NamedColor::BrightBlack => 8,
        NamedColor::BrightRed => 9,
        NamedColor::BrightGreen => 10,
        NamedColor::BrightYellow => 11,
        NamedColor::BrightBlue => 12,
        NamedColor::BrightMagenta => 13,
        NamedColor::BrightCyan => 14,
        NamedColor::BrightWhite => 15,
        NamedColor::Foreground => 256,
        NamedColor::Background => 257,
        NamedColor::Cursor => 258,
        NamedColor::DimBlack => 259,
        NamedColor::DimRed => 260,
        NamedColor::DimGreen => 261,
        NamedColor::DimYellow => 262,
        NamedColor::DimBlue => 263,
        NamedColor::DimMagenta => 264,
        NamedColor::DimCyan => 265,
        NamedColor::DimWhite => 266,
        NamedColor::BrightForeground => 267,
        NamedColor::DimForeground => 268,
    }
}

/// The slot of a named color in the table of colors that a program can
/// redefine.
pub fn slot(named: NamedColor) -> (r: usize)
    ensures
        r == slot_of(named),
        r < 269,
{
    match named {
        NamedColor::Black => 0,
        NamedColor::Red => 1,
        NamedColor::Green => 2,
        NamedColor::Yellow => 3,
        NamedColor::Blue => 4,
        NamedColor::Magenta => 5,
        NamedColor::Cyan => 6,
        NamedColor::White => 7,
        NamedColor::BrightBlack => 8,
        NamedColor::BrightRed => 9,
        NamedColor::BrightGreen => 10,
        NamedColor::BrightYellow => 11,
        NamedColor::BrightBlue => 12,
        NamedColor::BrightMagenta => 13,
        NamedColor::BrightCyan => 14,
        NamedColor::BrightWhite => 15,
        NamedColor::Foreground => 256,
        NamedColor::Background => 257,
        NamedColor::Cursor => 258,
        NamedColor::DimBlack => 259,
        NamedColor::DimRed => 260,
        NamedColor::DimGreen => 261,
        NamedColor::DimYellow => 262,
        NamedColor::DimBlue => 263,
        NamedColor::DimMagenta => 264,
        NamedColor::DimCyan => 265,
        NamedColor::DimWhite => 266,
        NamedColor::BrightForeground => 267,
        NamedColor::DimForeground => 268,
    }
}

/// The colors that a program redefined through escape sequences.
pub struct Redefined {
    slots: Vec<Option<Rgb>>,
}

impl View for Redefined {
    type V = Seq<Option<Rgb>>;

    closed spec fn view(&self) -> Seq<Option<Rgb>> {
        self.slots@
    }
}

impl Redefined {
    #[verifier::type_invariant]
    closed spec fn wf(self) -> bool {
        self.slots@.len() == 269
    }

    /// No color redefined.
    pub fn new() -> (r: Redefined)
        ensures
            r@.len() == 269,
            forall|i: int| 0 <= i < 269 ==> #[trigger] r@[i] is None,
    {
        let mut slots: Vec<Option<Rgb>> = Vec::new();
        while slots.len() < 269
            invariant
                slots@.len() <= 269,
                forall|i: int| 0 <= i < slots@.len() ==> #[trigger] slots@[i] is None,
            decreases 269 - slots@.len(),
        {
            slots.push(None);
        }
        Redefined { slots }
    }

    /// Redefine the color in a slot; a slot that does not exist is ignored.
    pub fn set(&mut self, index: usize, color: Option<Rgb>)
        ensures
            index < 269 ==> final(self)@ == old(self)@.update(index as int, color),
            index >= 269 ==> final(self)@ == old(self)@,
    {
        let mut taken = Redefined::new();
        std::mem::swap(self, &mut taken);
        proof {
            use_type_invariant(&taken);
        }
        let mut slots = taken.slots;
        if index < 269 {
            slots.set(index, color);
        }
        *self = Redefined { slots };
    }

    /// The color in a slot, if it was redefined.
    pub fn get(&self, index: usize) -> (r: Option<Rgb>)
        requires
            index < 269,
        ensures
            r == self@[index as int],
    {
        proof {
            use_type_invariant(self);
        }
        self.slots[index]
    }
}

/// The bright variant of a base color; other colors are their own.
pub open spec fn brightened(named: NamedColor) -> NamedColor {
    match named {
        NamedColor::Black => NamedColor::BrightBlack,
        NamedColor::Red => NamedColor::BrightRed,
        NamedColor::Green => NamedColor::BrightGreen,
        NamedColor::Yellow => NamedColor::BrightYellow,
        NamedColor::Blue => NamedColor::BrightBlue,
        NamedColor::Magenta => NamedColor::BrightMagenta,
        NamedColor::Cyan => NamedColor::BrightCyan,
        NamedColor::White => NamedColor::BrightWhite,
        other => other,
    }
}

/// The color that a cell is drawn in before it is resolved: bold text on a
/// base ANSI color takes the bright variant.
pub open spec fn drawn_color(color: Color, bold_text: bool) -> Color {
    match color {
        Color::Named(named) => if bold_text {
            Color::Named(brightened(named))
        } else {
            color
        },
        _ => color,
    }
}

/// A level of the 6x6x6 color cube.
pub open spec fn cube_channel(v: int) -> u8 {
    if v == 0 {
        0
    } else {
        (55 + v * 40) as u8
    }
}

/// The color of an index that was not redefined: the palette, the 6x6x6 color
/// cube, or the grayscale ramp.
pub open spec fn index_default(index: u8, palette: Palette) -> Rgb {
    if index < 16 {
        palette.indexed@[index as int]
    } else if index < 232 {
        let i = index - 16;
        Rgb { r: cube_channel(i / 36), g: cube_channel(i / 6 % 6), b: cube_channel(i % 6) }
    } else {
        let v = (8 + (index - 232) * 10) as u8;
        Rgb { r: v, g: v, b: v }
    }
}

/// The color of a name that was not redefined.
pub open spec fn name_default(named: NamedColor, palette: Palette) -> Rgb {
    let k = slot_of(named);
    if named is Background {
        palette.background
    } else if named is Cursor {
        palette.cursor
    } else if 259 <= k <= 266 {
        dimmed(palette.indexed@[k - 259])
    } else if k < 16 {
        palette.indexed@[k]
    } else {
        palette.foreground
    }
}

/// The color that a cell's color resolves to.
pub open spec fn resolved(
    color: Color,
    bold_text: bool,
    faint: bool,
    redefined: Seq<Option<Rgb>>,
    palette: Palette,
) -> Rgb {
    let rgb = match drawn_color(color, bold_text) {
        Color::Spec(rgb) => rgb,
        Color::Named(named) => match redefined[slot_of(named)] {
            Some(rgb) => rgb,
            None => name_default(named, palette),
        },
        Color::Indexed(index) => match redefined[index as int] {
            Some(rgb) => rgb,
            None => index_default(index, palette),
        },
    };
    if faint {
        dimmed(rgb)
    } else {
        rgb
    }
}

fn brighten(named: NamedColor) -> (r: NamedColor)
    ensures
        r == brightened(named),
{
    match named {
        NamedColor::Black => NamedColor::BrightBlack,
        NamedColor::Red => NamedColor::BrightRed,
        NamedColor::Green => NamedColor::BrightGreen,
        NamedColor::Yellow => NamedColor::BrightYellow,
        NamedColor::Blue => NamedColor::BrightBlue,
        NamedColor::Magenta => NamedColor::BrightMagenta,
        NamedColor::Cyan => NamedColor::BrightCyan,
        NamedColor::White => NamedColor::BrightWhite,
        other => other,
    }
}

fn cube(v: u8) -> (r: u8)
    requires
        v <= 5,
    ensures
        r == cube_channel(v as int),
{
    if v == 0 {
        0
    } else {
        55 + v * 40
    }
}

/// The color of a name that was not redefined.
pub fn named_default(named: NamedColor, palette: &Palette) -> (r: Rgb)
    ensures
        r == name_default(named, *palette),
{
    let k = slot(named);
    match named {
        NamedColor::Background => palette.background,
        NamedColor::Cursor => palette.cursor,
        _ => if 259 <= k && k <= 266 {
            dim(palette.indexed[k - 259])
        } else if k < 16 {
            palette.indexed[k]
        } else {
            palette.foreground
        },
    }
}

/// Resolve a terminal color to an RGB value, honoring the colors that the
/// application redefined through escape sequences.
pub fn resolve(
    color: Color,
    bold: bool,
    faint: bool,
    redefined: &Redefined,
    is_fg: bool,
    palette: &Palette,
) -> (r: Rgb)
    ensures
        r == resolved(color, is_fg && bold, faint, redefined@, *palette),
{
    // Bold text on a base ANSI color is rendered with the bright variant.
    let color = match color {
        Color::Named(named) => if is_fg && bold {
            Color::Named(brighten(named))
        } else {
            color
        },
        _ => color,
    };
    let rgb = match color {
        Color::Spec(rgb) => rgb,
        Color::Named(named) => match redefined.get(slot(named)) {
            Some(rgb) => rgb,
            None => named_default(named, palette),
        },
        Color::Indexed(index) => match redefined.get(index as usize) {
            Some(rgb) => rgb,
            None => if index < 16 {
                palette.indexed[index as usize]
            } else if index < 232 {
                let i: u8 = index - 16;
                Rgb { r: cube(i / 36), g: cube(i / 6 % 6), b: cube(i % 6) }
            } else {
                let v: u8 = 8 + (index - 232) * 10;
                Rgb { r: v, g: v, b: v }
            },
        },
    };
    if faint {
        dim(rgb)
    } else {
        rgb
    }
}

/// The text and background color of a cell: an inverse cell swaps them, a
/// hidden one shows its background only.
pub open spec fn shown_colors(fg: Rgb, bg: Rgb, inverse: bool, hidden: bool) -> (Rgb, Rgb) {
    let (fg, bg) = if inverse {
        (bg, fg)
    } else {
        (fg, bg)
    };
    if hidden {
        (bg, bg)
    } else {
        (fg, bg)
    }
}

/// The text and background color of a cell.
pub fn cell_colors(fg: Rgb, bg: Rgb, inverse: bool, hidden: bool) -> (r: (Rgb, Rgb))
    ensures
        r == shown_colors(fg, bg, inverse, hidden),
{
    let (fg, bg) = if inverse {
        (bg, fg)
    } else {
        (fg, bg)
    };
    if hidden {
        (bg, bg)
    } else {
        (fg, bg)
    }
}

/// The background to paint behind a cell, if any.
pub open spec fn painted_background(bg: Rgb, default_bg: Rgb, selected: bool, selection: Rgb) -> Option<
    Rgb,
> {
    if selected {
        Some(selection)
    } else if bg != default_bg {
        Some(bg)
    } else {
        None
    }
}

/// The background that has to be painted behind a cell, if any: that of the
/// selection, or one that differs from the default.
pub fn cell_background(bg: Rgb, default_bg: Rgb, selected: bool, palette: &Palette) -> (r: Option<
    Rgb,
>)
    ensures
        r == painted_background(bg, default_bg, selected, palette.selection),
        r == if selected {
            Some(palette.selection)
        } else if bg != default_bg {
            Some(bg)
        } else {
            None
        },
{
    if selected {
        Some(palette.selection)
    } else if bg != default_bg {
        Some(bg)
    } else {
        None
    }
}

/// The shape of the cursor.
#[derive(Debug, Clone, Copy, PartialEq, Eq, Structural)]
pub enum CursorShape {
    Block,
    Underline,
    Beam,
    HollowBlock,
    Hidden,
}

/// The cursor that is drawn: none while the view is scrolled back, a hollow
/// one in an unfocused window, and none in the hidden blink phase of a block.
pub open spec fn cursor_shown(
    shape: CursorShape,
    display_offset: usize,
    focused: bool,
    blink_visible: bool,
) -> CursorShape {
    if display_offset != 0 {
        CursorShape::Hidden
    } else if !focused {
        CursorShape::HollowBlock
    } else if shape is Block && !blink_visible {
        CursorShape::Hidden
    } else {
        shape
    }
}

/// The cursor that is drawn.
pub fn drawn_cursor(
    shape: CursorShape,
    display_offset: usize,
    focused: bool,
    blink_visible: bool,
) -> (r: CursorShape)
    ensures
        r == cursor_shown(shape, display_offset, focused, blink_visible),
{
    if display_offset != 0 {
        CursorShape::Hidden
    } else if !focused {
        CursorShape::HollowBlock
    } else {
        match shape {
            CursorShape::Block => if blink_visible {
                CursorShape::Block
            } else {
                CursorShape::Hidden
            },
            other => other,
        }
    }
}

// ---------------------------------------------------------------------------
// Laws.

/// An override that is not a valid color keeps the default.
pub proof fn law_invalid_override_keeps_default(default: Rgb, value: Option<String>)
    requires
        is_invalid(value),
    ensures
        overridden(default, value) == default,
{
}

/// Colors given by their channels are drawn as they are.
pub proof fn law_spec_colors_pass_through(
    rgb: Rgb,
    bold_text: bool,
    redefined: Seq<Option<Rgb>>,
    palette: Palette,
)
    ensures
        resolved(Color::Spec(rgb), bold_text, false, redefined, palette) == rgb,
{
}

/// A redefined color wins over the palette, whatever the palette holds.
pub proof fn law_redefined_color_wins(
    index: u8,
    rgb: Rgb,
    redefined: Seq<Option<Rgb>>,
    palette: Palette,
)
    requires
        redefined[index as int] == Some(rgb),
    ensures
        resolved(Color::Indexed(index), false, false, redefined, palette) == rgb,
{
}

/// Dimming never brightens a channel.
pub proof fn law_dim_never_brightens(rgb: Rgb)
    ensures
        dimmed(rgb).r <= rgb.r,
        dimmed(rgb).g <= rgb.g,
        dimmed(rgb).b <= rgb.b,
{
}

/// The six levels of a channel in the color cube.
pub open spec fn cube_levels() -> Seq<u8> {
    seq![0u8, 95u8, 135u8, 175u8, 215u8, 255u8]
}

/// The color cube: the index 16 + 36 r + 6 g + b that was not redefined has its
/// red at level `r`, its green at level `g` and its blue at level `b`.
pub proof fn law_color_cube(
    r: int,
    g: int,
    b: int,
    bold_text: bool,
    redefined: Seq<Option<Rgb>>,
    palette: Palette,
)
    requires
        0 <= r <= 5,
        0 <= g <= 5,
        0 <= b <= 5,
        redefined[16 + 36 * r + 6 * g + b] is None,
    ensures
        resolved(
            Color::Indexed((16 + 36 * r + 6 * g + b) as u8),
            bold_text,
            false,
            redefined,
            palette,
        ) == (Rgb { r: cube_levels()[r], g: cube_levels()[g], b: cube_levels()[b] }),
{
    let i = 36 * r + 6 * g + b;
    assert(i / 36 == r);
    assert(i / 6 == 6 * r + g);
    assert(i / 6 % 6 == g);
    assert(i % 6 == b);
}

/// The gray ramp: from index 232 on, the color is gray and each step is 10
/// brighter than the one before, from 8 on.
pub proof fn law_gray_ramp(
    k: int,
    bold_text: bool,
    redefined: Seq<Option<Rgb>>,
    palette: Palette,
)
    requires
        0 <= k < 24,
        redefined[232 + k] is None,
    ensures
        ({
            let shown = resolved(
                Color::Indexed((232 + k) as u8),
                bold_text,
                false,
                redefined,
                palette,
            );
            shown.r == 8 + 10 * k && shown.g == shown.r && shown.b == shown.r
        }),
{
}

/// The eight base colors, in the order of their indices.
pub open spec fn base_names() -> Seq<NamedColor> {
    seq![
        NamedColor::Black,
        NamedColor::Red,
        NamedColor::Green,
        NamedColor::Yellow,
        NamedColor::Blue,
        NamedColor::Magenta,
        NamedColor::Cyan,
        NamedColor::White,
    ]
}

/// Their bright variants.
pub open spec fn bright_names() -> Seq<NamedColor> {
    seq![
        NamedColor::BrightBlack,
        NamedColor::BrightRed,
        NamedColor::BrightGreen,
        NamedColor::BrightYellow,
        NamedColor::BrightBlue,
        NamedColor::BrightMagenta,
        NamedColor::BrightCyan,
        NamedColor::BrightWhite,
    ]
}

/// Their dim variants.
pub open spec fn dim_names() -> Seq<NamedColor> {
    seq![
        NamedColor::DimBlack,
        NamedColor::DimRed,
        NamedColor::DimGreen,
        NamedColor::DimYellow,
        NamedColor::DimBlue,
        NamedColor::DimMagenta,
        NamedColor::DimCyan,
        NamedColor::DimWhite,
    ]
}

/// A base color and a bright one are those of their indices, whether the
/// program redefined these or not; bold text in a base color has the bright
/// one; a dim one that was not redefined is the base color of the palette,
/// dimmed.
pub proof fn law_base_colors(
    k: int,
    bold_text: bool,
    redefined: Seq<Option<Rgb>>,
    palette: Palette,
)
    requires
        0 <= k < 8,
    ensures
        ({
            let low = resolved(Color::Indexed(k as u8), false, false, redefined, palette);
            let high = resolved(Color::Indexed((k + 8) as u8), false, false, redefined, palette);
            let base = Color::Named(base_names()[k]);
            let bright = Color::Named(bright_names()[k]);
            let dim = Color::Named(dim_names()[k]);
            &&& resolved(base, false, false, redefined, palette) == low
            &&& resolved(base, true, false, redefined, palette) == high
            &&& resolved(bright, bold_text, false, redefined, palette) == high
            &&& redefined[k] is None ==> low == palette.indexed@[k]
            &&& redefined[k + 8] is None ==> high == palette.indexed@[k + 8]
            &&& redefined[259 + k] is None ==> resolved(dim, bold_text, false, redefined, palette)
                == dimmed(palette.indexed@[k])
            &&& redefined[259 + k] matches Some(rgb) ==> resolved(
                dim,
                bold_text,
                false,
                redefined,
                palette,
            ) == rgb
        }),
{
}

/// The colors that are not in the palette's table: the foreground in its three
/// variants, the background and the cursor.
pub proof fn law_ground_colors(bold_text: bool, redefined: Seq<Option<Rgb>>, palette: Palette)
    ensures
        ({
            let shown = |named: NamedColor|
                resolved(Color::Named(named), bold_text, false, redefined, palette);
            &&& redefined[256] is None ==> shown(NamedColor::Foreground) == palette.foreground
            &&& redefined[257] is None ==> shown(NamedColor::Background) == palette.background
            &&& redefined[258] is None ==> shown(NamedColor::Cursor) == palette.cursor
            &&& redefined[267] is None ==> shown(NamedColor::BrightForeground)
                == palette.foreground
            &&& redefined[268] is None ==> shown(NamedColor::DimForeground) == palette.foreground
            &&& redefined[256] matches Some(rgb) ==> shown(NamedColor::Foreground) == rgb
            &&& redefined[257] matches Some(rgb) ==> shown(NamedColor::Background) == rgb
            &&& redefined[258] matches Some(rgb) ==> shown(NamedColor::Cursor) == rgb
            &&& redefined[267] matches Some(rgb) ==> shown(NamedColor::BrightForeground) == rgb
            &&& redefined[268] matches Some(rgb) ==> shown(NamedColor::DimForeground) == rgb
        }),
{
}

/// Faint text has two thirds of the brightness in each channel, rounded down,
/// whatever the color; bold text changes no color given by index or channels.
pub proof fn law_faint_and_bold(
    color: Color,
    bold_text: bool,
    redefined: Seq<Option<Rgb>>,
    palette: Palette,
)
    ensures
        ({
            let plain = resolved(color, bold_text, false, redefined, palette);
            let faint = resolved(color, bold_text, true, redefined, palette);
            &&& 100 * faint.r <= 66 * plain.r < 100 * (faint.r + 1)
            &&& 100 * faint.g <= 66 * plain.g < 100 * (faint.g + 1)
            &&& 100 * faint.b <= 66 * plain.b < 100 * (faint.b + 1)
        }),
        !(color is Named) ==> resolved(color, true, false, redefined, palette) == resolved(
            color,
            false,
            false,
            redefined,
            palette,
        ),
{
}

/// Inverse video swaps text and background, and undoes itself; hidden text has
/// the color that is behind it.
pub proof fn law_inverse_and_hidden(fg: Rgb, bg: Rgb, inverse: bool)
    ensures
        shown_colors(fg, bg, false, false) == (fg, bg),
        shown_colors(fg, bg, true, false) == (bg, fg),
        shown_colors(fg, bg, inverse, true).1 == shown_colors(fg, bg, inverse, false).1,
        shown_colors(fg, bg, inverse, true).0 == shown_colors(fg, bg, inverse, true).1,
{
}

/// The cursor follows the program's shape where the view is at the bottom of a
/// focused window, but for a block in its hidden blink phase; an unfocused
/// window has a hollow one, and a view that is scrolled back none.
pub proof fn law_cursor_is_shown(shape: CursorShape, offset: usize, focused: bool, visible: bool)
    ensures
        cursor_shown(shape, 0, true, true) == shape,
        shape != CursorShape::Block ==> cursor_shown(shape, 0, true, visible) == shape,
        cursor_shown(CursorShape::Block, 0, true, false) is Hidden,
        cursor_shown(shape, 0, false, visible) is HollowBlock,
        offset > 0 ==> cursor_shown(shape, offset, focused, visible) is Hidden,
{
}

/// A valid override is the color of its digits, and replaces the default.
pub proof fn law_valid_override_wins(default: Rgb, text: String, rgb: Rgb)
    requires
        hex_color(text@) == Some(rgb),
    ensures
        overridden(default, Some(text)) == rgb,
        overridden(default, None) == default,
{
}

/// Each override of an ANSI color is that of the name it goes by.
pub proof fn law_overrides_go_by_name(colors: Colors)
    ensures
        ({
            let at = |named: NamedColor| indexed_colors(colors)[slot_of(named)];
            &&& indexed_colors(colors).len() == 16
            &&& at(NamedColor::Black) == colors.black
            &&& at(NamedColor::Red) == colors.red
            &&& at(NamedColor::Green) == colors.green
            &&& at(NamedColor::Yellow) == colors.yellow
            &&& at(NamedColor::Blue) == colors.blue
            &&& at(NamedColor::Magenta) == colors.magenta
            &&& at(NamedColor::Cyan) == colors.cyan
            &&& at(NamedColor::White) == colors.white
            &&& at(NamedColor::BrightBlack) == colors.bright_black
            &&& at(NamedColor::BrightRed) == colors.bright_red
            &&& at(NamedColor::BrightGreen) == colors.bright_green
            &&& at(NamedColor::BrightYellow) == colors.bright_yellow
            &&& at(NamedColor::BrightBlue) == colors.bright_blue
            &&& at(NamedColor::BrightMagenta) == colors.bright_magenta
            &&& at(NamedColor::BrightCyan) == colors.bright_cyan
            &&& at(NamedColor::BrightWhite) == colors.bright_white
        }),
{
}

/// A selected cell is painted in the color of the selection, any other where its
/// background is not the default one.
pub proof fn law_painted_backgrounds(bg: Rgb, default_bg: Rgb, selection: Rgb)
    ensures
        painted_background(bg, default_bg, true, selection) == Some(selection),
        painted_background(default_bg, default_bg, false, selection) is None,
        bg != default_bg ==> painted_background(bg, default_bg, false, selection) == Some(bg),
{
}

/// The built-in ANSI colors, each as the number that its six hex digits write.
pub open spec fn default_codes() -> Seq<int> {
    seq![
        0x1d1f21, 0xcc6666, 0xb5bd68, 0xf0c674, 0x81a2be, 0xb294bb, 0x8abeb7, 0xc5c8c6, 0x666666,
        0xd54e53, 0xb9ca4a, 0xe7c547, 0x7aa6da, 0xc397d8, 0x70c0b1, 0xeaeaea,
    ]
}

/// The number that the six hex digits of a color write.
pub open spec fn code_of(rgb: Rgb) -> int {
    rgb.r * 0x10000 + rgb.g * 0x100 + rgb.b
}

/// The built-in colors: light gray on dark gray, and the ANSI table.
pub proof fn law_default_colors(k: int)
    requires
        0 <= k < 16,
    ensures
        code_of(ansi_rgb()[k]) == default_codes()[k],
        ansi_rgb().len() == 16,
        code_of(foreground_rgb()) == 0xd8d8d8,
        code_of(background_rgb()) == 0x181818,
        code_of(cursor_rgb()) == 0xd8d8d8,
        code_of(selection_rgb()) == 0x3d4452,
{
    let colors = ansi_rgb();
    let codes = default_codes();
    assert(code_of(colors[0]) == codes[0] && code_of(colors[1]) == codes[1]);
    assert(code_of(colors[2]) == codes[2] && code_of(colors[3]) == codes[3]);
    assert(code_of(colors[4]) == codes[4] && code_of(colors[5]) == codes[5]);
    assert(code_of(colors[6]) == codes[6] && code_of(colors[7]) == codes[7]);
    assert(code_of(colors[8]) == codes[8] && code_of(colors[9]) == codes[9]);
    assert(code_of(colors[10]) == codes[10] && code_of(colors[11]) == codes[11]);
    assert(code_of(colors[12]) == codes[12] && code_of(colors[13]) == codes[13]);
    assert(code_of(colors[14]) == codes[14] && code_of(colors[15]) == codes[15]);
    assert(k == 0 || k == 1 || k == 2 || k == 3 || k == 4 || k == 5 || k == 6 || k == 7 || k == 8
        || k == 9 || k == 10 || k == 11 || k == 12 || k == 13 || k == 14 || k == 15);
}

/// An override is invalid where it is there and denotes no color. They are
/// listed with the foreground, the background, the cursor and the selection in
/// front of the table.
pub proof fn law_invalid_overrides_are_told(colors: Colors, text: String, k: int)
    requires
        0 <= k < 16,
    ensures
        is_invalid(Some(text)) <==> hex_color(text@) is None,
        !is_invalid(None),
        all_overrides(colors)[0] == colors.foreground,
        all_overrides(colors)[1] == colors.background,
        all_overrides(colors)[2] == colors.cursor,
        all_overrides(colors)[3] == colors.selection_background,
        all_overrides(colors)[4 + k] == indexed_colors(colors)[k],
{
}

} // verus!
