//! Colors, rows and frames.

use comma::color::{
    ansi_palette, cell_background, cell_colors, dim, drawn_cursor, invalid_overrides,
    named_default, resolve, slot, Color, CursorShape, NamedColor, Palette, Redefined,
};
use comma::config::{Colors, Rgb};
use comma::frame::{is_stale, plan_cell, GridCell};
use comma::row::{
    find_urls, layout_row, stale_rows, underline_urls, CacheContext, CellStyle, Damage, RowCell,
    Section,
};

fn rgb(r: u8, g: u8, b: u8) -> Rgb {
    Rgb { r, g, b }
}

fn resolved(color: Color, bold: bool, faint: bool) -> Rgb {
    resolve(color, bold, faint, &Redefined::new(), true, &Palette::default())
}

#[test]
fn indexed_colors() {
    // 0..16: the ANSI palette.
    assert_eq!(resolved(Color::Indexed(0), false, false), ansi_palette()[0]);
    assert_eq!(resolved(Color::Indexed(15), false, false), ansi_palette()[15]);
    // 16..232: the 6x6x6 color cube.
    assert_eq!(resolved(Color::Indexed(16), false, false), rgb(0, 0, 0));
    assert_eq!(resolved(Color::Indexed(231), false, false), rgb(255, 255, 255));
    assert_eq!(resolved(Color::Indexed(21), false, false), rgb(0, 0, 255));
    // 232..256: the grayscale ramp.
    assert_eq!(resolved(Color::Indexed(232), false, false), rgb(8, 8, 8));
    assert_eq!(resolved(Color::Indexed(255), false, false), rgb(238, 238, 238));
}

#[test]
fn named_colors() {
    assert_eq!(resolved(Color::Named(NamedColor::Red), false, false), ansi_palette()[1]);
    assert_eq!(resolved(Color::Named(NamedColor::BrightRed), false, false), ansi_palette()[9]);
    assert_eq!(
        resolved(Color::Named(NamedColor::Foreground), false, false),
        rgb(0xd8, 0xd8, 0xd8)
    );
    assert_eq!(
        resolved(Color::Named(NamedColor::Background), false, false),
        rgb(0x18, 0x18, 0x18)
    );
    assert_eq!(
        resolved(Color::Named(NamedColor::DimRed), false, false),
        dim(ansi_palette()[1])
    );
}

#[test]
fn spec_colors_pass_through() {
    let color = rgb(1, 2, 3);
    assert_eq!(resolved(Color::Spec(color), false, false), color);
}

#[test]
fn bold_text_uses_bright_variants() {
    let red = Color::Named(NamedColor::Red);
    assert_eq!(resolved(red, true, false), ansi_palette()[9]);
    // Only for foreground, and only for the eight base colors.
    assert_eq!(
        resolve(red, true, false, &Redefined::new(), false, &Palette::default()),
        ansi_palette()[1]
    );
    assert_eq!(resolved(Color::Named(NamedColor::BrightRed), true, false), ansi_palette()[9]);
}

#[test]
fn dim_scales_channels() {
    assert_eq!(resolved(Color::Indexed(231), false, true), dim(rgb(255, 255, 255)));
    assert_eq!(dim(rgb(255, 255, 255)), rgb(168, 168, 168));
}

#[test]
fn dim_is_two_thirds_of_every_level() {
    for v in 0..=255u8 {
        let scaled = (v as f32 * 0.66) as u8;
        assert_eq!(dim(rgb(v, 0, v)), rgb(scaled, 0, scaled));
    }
}

#[test]
fn palette_overrides_win() {
    let mut colors = Redefined::new();
    colors.set(slot(NamedColor::Red), Some(rgb(10, 20, 30)));
    let red = Color::Named(NamedColor::Red);
    assert_eq!(
        resolve(red, false, false, &colors, true, &Palette::default()),
        rgb(10, 20, 30)
    );
    colors.set(slot(NamedColor::Red), None);
    colors.set(1000, Some(rgb(1, 1, 1)));
    assert_eq!(resolve(red, false, false, &colors, true, &Palette::default()), ansi_palette()[1]);
    colors.set(200, Some(rgb(4, 5, 6)));
    assert_eq!(
        resolve(Color::Indexed(200), false, false, &colors, true, &Palette::default()),
        rgb(4, 5, 6)
    );
    assert_eq!(colors.get(200), Some(rgb(4, 5, 6)));
}

#[test]
fn palette_with_config_overrides() {
    let colors = Colors {
        foreground: Some("#112233".into()),
        red: Some("#010203".into()),
        selection_background: Some("#040506".into()),
        ..Default::default()
    };
    let palette = Palette::with_overrides(&colors);
    assert_eq!(palette.foreground, rgb(0x11, 0x22, 0x33));
    assert_eq!(palette.indexed[1], rgb(1, 2, 3));
    assert_eq!(palette.selection, rgb(4, 5, 6));
    // Untouched slots keep the defaults.
    assert_eq!(palette.background, rgb(0x18, 0x18, 0x18));
    assert_eq!(palette.indexed[2], ansi_palette()[2]);
}

#[test]
fn palette_invalid_hex_keeps_default() {
    let colors = Colors { foreground: Some("nope".into()), ..Default::default() };
    let palette = Palette::with_overrides(&colors);
    assert_eq!(palette.foreground, rgb(0xd8, 0xd8, 0xd8));
    assert_eq!(Palette::default(), Palette::with_overrides(&Colors::default()));
    let invalid = invalid_overrides(&Colors { red: Some("x".into()), cyan: Some("#000000".into()), ..colors });
    let bad: Vec<usize> = (0..20).filter(|i| invalid[*i]).collect();
    assert_eq!(bad, vec![0, 5]);
}

#[test]
fn named_defaults() {
    let palette = Palette::default();
    assert_eq!(named_default(NamedColor::Cursor, &palette), palette.cursor);
    assert_eq!(named_default(NamedColor::BrightForeground, &palette), palette.foreground);
    assert_eq!(named_default(NamedColor::DimForeground, &palette), palette.foreground);
    assert_eq!(named_default(NamedColor::DimWhite, &palette), dim(palette.indexed[7]));
    assert_eq!(named_default(NamedColor::White, &palette), palette.indexed[7]);
}

#[test]
fn inverse_and_hidden_cells() {
    let (a, b) = (rgb(1, 1, 1), rgb(2, 2, 2));
    assert_eq!(cell_colors(a, b, false, false), (a, b));
    assert_eq!(cell_colors(a, b, true, false), (b, a));
    assert_eq!(cell_colors(a, b, false, true), (b, b));
    assert_eq!(cell_colors(a, b, true, true), (a, a));
    let palette = Palette::default();
    assert_eq!(cell_background(a, b, false, &palette), Some(a));
    assert_eq!(cell_background(a, a, false, &palette), None);
    assert_eq!(cell_background(a, a, true, &palette), Some(palette.selection));
}

#[test]
fn cursor_shapes() {
    let block = CursorShape::Block;
    assert_eq!(drawn_cursor(block, 0, true, true), CursorShape::Block);
    assert_eq!(drawn_cursor(block, 0, true, false), CursorShape::Hidden);
    assert_eq!(drawn_cursor(block, 0, false, false), CursorShape::HollowBlock);
    assert_eq!(drawn_cursor(block, 3, true, true), CursorShape::Hidden);
    assert_eq!(drawn_cursor(CursorShape::Beam, 0, true, false), CursorShape::Beam);
}

// -- stale_rows (damage tracking) -----------------------------------------

/// The rows to rebuild with a cache built for (0, 14.0, 24).
fn stale(damage: &Damage, display_offset: usize, font_size: f32, screen_lines: usize) -> Option<Vec<usize>> {
    let cached = CacheContext { display_offset: 0, screen_lines: 24 };
    let current = CacheContext { display_offset, screen_lines };
    stale_rows(damage, cached, current, font_size == 14.0)
}

#[test]
fn stale_rows_full_damage_or_context_change_rebuilds_all() {
    assert_eq!(stale(&Damage::Full, 0, 14.0, 24), None);
    // Scrolled, resized or re-fonted cache: full rebuild even on partial damage.
    let partial = Damage::Partial(vec![3]);
    assert_eq!(stale(&partial, 5, 14.0, 24), None);
    assert_eq!(stale(&partial, 0, 16.0, 24), None);
    assert_eq!(stale(&partial, 0, 14.0, 30), None);
}

#[test]
fn stale_rows_partial_damage_rebuilds_only_those_lines() {
    let damage = Damage::Partial(vec![2, 7, 100]);
    // Out-of-viewport lines are dropped.
    assert_eq!(stale(&damage, 0, 14.0, 24), Some(vec![2, 7]));
}

// -- layout_row -----------------------------------------------------------

const RED: Rgb = Rgb { r: 255, g: 0, b: 0 };
const BLUE: Rgb = Rgb { r: 0, g: 0, b: 255 };

fn style(fg: Rgb) -> CellStyle {
    CellStyle { fg, underline: false, strikethrough: false }
}

fn cell(text: &str, fg: Rgb) -> RowCell {
    RowCell { text: text.into(), style: style(fg) }
}

#[test]
fn row_text_is_concatenated_with_spaces() {
    let cells = [cell("a", RED), cell(" ", RED), cell("b", BLUE)];
    let layout = layout_row(&cells).unwrap();
    assert_eq!(layout.text, "a b");
    // Two sections: red "a ", blue "b"; ranges cover the text seamlessly.
    assert_eq!(
        layout.sections,
        vec![
            Section { start: 0, end: 2, style: style(RED) },
            Section { start: 2, end: 3, style: style(BLUE) },
        ]
    );
}

#[test]
fn row_of_spaces_is_not_drawn_and_trailing_blanks_are_cut() {
    let cells = [cell(" ", RED), cell(" ", BLUE)];
    assert!(layout_row(&cells).is_none());

    let cells = [cell("a", RED), cell(" ", RED), cell(" ", RED)];
    let layout = layout_row(&cells).unwrap();
    assert_eq!(layout.text, "a");
}

#[test]
fn typed_urls_are_underlined() {
    let text = "go https://x.io now";
    let mut cells: Vec<RowCell> = text.chars().map(|c| cell(&c.to_string(), RED)).collect();
    underline_urls(&mut cells);
    let underlined: String = cells
        .iter()
        .zip(text.chars())
        .filter(|(cell, _)| cell.style.underline)
        .map(|(_, c)| c)
        .collect();
    assert_eq!(underlined, "https://x.io");
    // No URL: styles are untouched.
    let mut cells = vec![cell("a", RED), cell("b", BLUE)];
    underline_urls(&mut cells);
    assert!(!cells.iter().any(|cell| cell.style.underline));
}

#[test]
fn underline_and_strikethrough_split_sections() {
    let mut underlined = cell("u", RED);
    underlined.style.underline = true;
    let mut struck = cell("s", RED);
    struck.style.strikethrough = true;
    let cells = [cell("a", RED), underlined, struck];
    let layout = layout_row(&cells).unwrap();
    assert_eq!(layout.text, "aus");
    assert_eq!(layout.sections.len(), 3);
    assert!(!layout.sections[0].style.underline);
    assert!(layout.sections[1].style.underline);
    assert!(layout.sections[2].style.strikethrough);
}

#[test]
fn sections_count_bytes() {
    let cells = [cell("é", RED), cell("b", BLUE), cell("世", BLUE)];
    let layout = layout_row(&cells).unwrap();
    let ranges: Vec<(usize, usize)> = layout.sections.iter().map(|s| (s.start, s.end)).collect();
    assert_eq!(ranges, vec![(0, 2), (2, 6)]);
    assert_eq!(layout.text.len(), 6);
}

#[test]
fn urls_run_to_the_next_white_space() {
    assert_eq!(find_urls("a http://x b https://y/z"), vec![(2, 10), (13, 24)]);
    assert_eq!(find_urls("(https://x)"), vec![(1, 11)]);
    assert_eq!(find_urls("http:/x https"), vec![]);
    assert_eq!(find_urls("é http://é"), vec![(2, 10)]);
}

fn grid_cell(c: char, line: i32) -> GridCell {
    GridCell {
        line,
        column: 3,
        c,
        zerowidth: vec![],
        fg: Color::Named(NamedColor::Red),
        bg: Color::Named(NamedColor::Background),
        bold: false,
        faint: false,
        inverse: false,
        hidden: false,
        wide: false,
        spacer: false,
        underlined: false,
        strikeout: false,
        hyperlink: false,
    }
}

#[test]
fn cells_are_planned() {
    let palette = Palette::default();
    let none = Redefined::new();
    let bg = palette.background;
    let plan = plan_cell(&grid_cell('x', -1), 3, &none, &palette, bg, false, &None).unwrap();
    assert_eq!((plan.row, plan.column, plan.background, plan.cells), (2, 3, None, 1));
    let text = plan.text.unwrap();
    assert_eq!((text.text.as_str(), text.style.fg), ("x", palette.indexed[1]));
    // Above the view, and the second half of a wide character.
    assert!(plan_cell(&grid_cell('x', -4), 3, &none, &palette, bg, false, &None).is_none());
    let spacer = GridCell { spacer: true, ..grid_cell(' ', 0) };
    assert!(plan_cell(&spacer, 0, &none, &palette, bg, false, &None).is_none());
    // Rows that are not stale need no text.
    let plan = plan_cell(&grid_cell('x', 1), 0, &none, &palette, bg, true, &Some(vec![0])).unwrap();
    assert!(plan.text.is_none());
    assert_eq!(plan.background, Some(palette.selection));
    let styled = GridCell {
        wide: true,
        inverse: true,
        bold: true,
        hyperlink: true,
        strikeout: true,
        zerowidth: vec!['\u{301}'],
        ..grid_cell('e', 0)
    };
    let plan = plan_cell(&styled, 0, &none, &palette, bg, false, &Some(vec![0])).unwrap();
    assert_eq!((plan.cells, plan.background), (2, Some(palette.indexed[9])));
    let text = plan.text.unwrap();
    assert_eq!(text.text, "e\u{301}");
    assert_eq!(text.style, CellStyle { fg: bg, underline: true, strikethrough: true });
    assert!(is_stale(&None, 9));
    assert!(!is_stale(&Some(vec![1]), 9));
}
