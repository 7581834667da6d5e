//! Frames: what each grid cell contributes to the picture of the terminal.

use vstd::prelude::*;

use crate::color::{
    cell_background, cell_colors, resolve, resolved, shown_colors, Color, Palette, Redefined,
};
use crate::config::Rgb;
use crate::row::{CellStyle, RowCell, RowCellView};

verus! {

/// A cell of the terminal grid.
pub struct GridCell {
    /// Line in grid coordinates: 0 is the top of the screen, scrollback is
    /// negative.
    pub line: i32,
    pub column: usize,
    pub c: char,
    /// Combining characters drawn over `c`.
    pub zerowidth: Vec<char>,
    pub fg: Color,
    pub bg: Color,
    pub bold: bool,
    pub faint: bool,
    pub inverse: bool,
    pub hidden: bool,
    /// A wide character owns two cells.
    pub wide: bool,
    /// The second cell of a wide character.
    pub spacer: bool,
    pub underlined: bool,
    pub strikeout: bool,
    /// The cell is part of a hyperlink.
    pub hyperlink: bool,
}

/// What a cell contributes to a frame.
pub struct CellPlan {
    /// Row in the view.
    pub row: usize,
    pub column: usize,
    /// The background to paint, if any, and over how many cells.
    pub background: Option<Rgb>,
    pub cells: usize,
    /// The cell of the row to be rebuilt, where the row is stale.
    pub text: Option<RowCell>,
}

/// The row of the view that a grid line is shown in.
pub open spec fn view_row(line: i32, display_offset: usize) -> int {
    line + display_offset
}

/// The row has to be rebuilt: all rows where `stale` is `None`.
pub open spec fn row_is_stale(stale: Option<Vec<usize>>, row: int) -> bool {
    match stale {
        None => true,
        Some(rows) => exists|i: int| 0 <= i < rows@.len() && #[trigger] rows@[i] == row,
    }
}

/// The text and background color of a cell.
pub open spec fn colors_of(cell: GridCell, redefined: Seq<Option<Rgb>>, palette: Palette) -> (
    Rgb,
    Rgb,
) {
    shown_colors(
        resolved(cell.fg, cell.bold, cell.faint, redefined, palette),
        resolved(cell.bg, false, cell.faint, redefined, palette),
        cell.inverse,
        cell.hidden,
    )
}

/// The background to paint behind a cell, if any.
pub open spec fn background_of(
    cell: GridCell,
    redefined: Seq<Option<Rgb>>,
    palette: Palette,
    default_bg: Rgb,
    selected: bool,
) -> Option<Rgb> {
    let bg = colors_of(cell, redefined, palette).1;
    if selected {
        Some(palette.selection)
    } else if bg != default_bg {
        Some(bg)
    } else {
        None
    }
}

/// The text and style of a cell.
pub open spec fn text_of(cell: GridCell, redefined: Seq<Option<Rgb>>, palette: Palette) -> RowCellView {
    RowCellView {
        text: seq![cell.c] + cell.zerowidth@,
        style: CellStyle {
            fg: colors_of(cell, redefined, palette).0,
            underline: cell.underlined || cell.hyperlink,
            strikethrough: cell.strikeout,
        },
    }
}

/// A cell that contributes nothing: the second cell of a wide character, and one
/// in a line above the view.
pub open spec fn is_left_out(cell: GridCell, display_offset: usize) -> bool {
    cell.spacer || view_row(cell.line, display_offset) < 0
}

/// How many cells a cell's background covers.
pub open spec fn covered_cells(cell: GridCell) -> int {
    if cell.wide {
        2
    } else {
        1
    }
}

/// Whether a row has to be rebuilt.
pub fn is_stale(stale: &Option<Vec<usize>>, row: usize) -> (r: bool)
    ensures
        r == row_is_stale(*stale, row as int),
{
    match stale {
        None => true,
        Some(rows) => {
            let mut i: usize = 0;
            while i < rows.len()
                invariant
                    *stale == Some(*rows),
                    i <= rows@.len(),
                    forall|k: int| 0 <= k < i ==> #[trigger] rows@[k] != row,
                decreases rows.len() - i,
            {
                if rows[i] == row {
                    proof {
                        assert(stale->0@[i as int] == row);
                    }
                    return true;
                }
                i += 1;
            }
            false
        },
    }
}

/// What a cell contributes to a frame: nothing for the second cell of a wide
/// character and for lines above the view; else the background behind it (a
/// wide character's covers both halves), and its text where its row is
/// rebuilt. Hyperlinks are underlined like URLs.
pub fn plan_cell(
    cell: &GridCell,
    display_offset: usize,
    redefined: &Redefined,
    palette: &Palette,
    default_bg: Rgb,
    selected: bool,
    stale: &Option<Vec<usize>>,
) -> (r: Option<CellPlan>)
    requires
        display_offset <= i32::MAX,
    ensures
        r is None <==> is_left_out(*cell, display_offset),
        r matches Some(plan) ==> plan.cells == covered_cells(*cell),
        r is None <==> cell.spacer || view_row(cell.line, display_offset) < 0,
        r matches Some(plan) ==> {
            &&& plan.row == view_row(cell.line, display_offset)
            &&& plan.column == cell.column
            &&& plan.background == background_of(
                *cell,
                redefined@,
                *palette,
                default_bg,
                selected,
            )
            &&& plan.cells == if cell.wide {
                2int
            } else {
                1int
            }
            &&& match plan.text {
                Some(text) => row_is_stale(*stale, plan.row as int) && text@ == text_of(
                    *cell,
                    redefined@,
                    *palette,
                ),
                None => !row_is_stale(*stale, plan.row as int),
            }
        },
{
    if cell.spacer {
        return None;
    }
    let row: i64 = cell.line as i64 + display_offset as i64;
    if row < 0 {
        return None;
    }
    let row: usize = row as usize;
    let fg = resolve(cell.fg, cell.bold, cell.faint, redefined, true, palette);
    let bg = resolve(cell.bg, cell.bold, cell.faint, redefined, false, palette);
    let (fg, bg) = cell_colors(fg, bg, cell.inverse, cell.hidden);
    let background = cell_background(bg, default_bg, selected, palette);
    let text = if is_stale(stale, row) {
        let mut text = String::new();
        text.push(cell.c);
        proof {
            assert(text@ =~= seq![cell.c] + cell.zerowidth@.take(0));
        }
        let mut i: usize = 0;
        while i < cell.zerowidth.len()
            invariant
                i <= cell.zerowidth@.len(),
                text@ == seq![cell.c] + cell.zerowidth@.take(i as int),
            decreases cell.zerowidth.len() - i,
        {
            text.push(cell.zerowidth[i]);
            proof {
                assert(text@ =~= seq![cell.c] + cell.zerowidth@.take(i + 1));
            }
            i += 1;
        }
        proof {
            assert(cell.zerowidth@.take(cell.zerowidth@.len() as int) =~= cell.zerowidth@);
        }
        Some(
            RowCell {
                text,
                style: CellStyle {
                    fg,
                    underline: cell.underlined || cell.hyperlink,
                    strikethrough: cell.strikeout,
                },
            },
        )
    } else {
        None
    };
    Some(
        CellPlan {
            row,
            column: cell.column,
            background,
            cells: if cell.wide {
                2
            } else {
                1
            },
            text,
        },
    )
}

/// A hidden cell shows nothing: its text has the color of its background.
pub proof fn law_hidden_cells_show_nothing(
    cell: GridCell,
    redefined: Seq<Option<Rgb>>,
    palette: Palette,
)
    requires
        cell.hidden,
    ensures
        text_of(cell, redefined, palette).style.fg == colors_of(cell, redefined, palette).1,
{
}

/// A selected cell is always painted in the selection color.
pub proof fn law_selection_wins(
    cell: GridCell,
    redefined: Seq<Option<Rgb>>,
    palette: Palette,
    default_bg: Rgb,
)
    ensures
        background_of(cell, redefined, palette, default_bg, true) == Some(palette.selection),
{
}

/// A cell's colors are those of its text and its background, of which bold
/// counts for the text only; a background other than the default one is
/// painted, and so is a selected cell's.
pub proof fn law_cell_colors(
    cell: GridCell,
    redefined: Seq<Option<Rgb>>,
    palette: Palette,
    default_bg: Rgb,
)
    ensures
        ({
            let fg = resolved(cell.fg, cell.bold, cell.faint, redefined, palette);
            let bg = resolved(cell.bg, false, cell.faint, redefined, palette);
            let painted = background_of(cell, redefined, palette, default_bg, false);
            &&& !cell.inverse && !cell.hidden ==> colors_of(cell, redefined, palette) == (fg, bg)
            &&& cell.inverse && !cell.hidden ==> colors_of(cell, redefined, palette) == (bg, fg)
            &&& !cell.inverse ==> painted == if bg == default_bg {
                None
            } else {
                Some(bg)
            }
            &&& cell.inverse && !cell.hidden ==> painted == if fg == default_bg {
                None
            } else {
                Some(fg)
            }
        }),
{
}

/// A cell shows its character with the marks over it, underlined where it is
/// underlined or part of a hyperlink; a line shows as many rows further down as
/// the view is scrolled back.
pub proof fn law_cell_texts(
    cell: GridCell,
    redefined: Seq<Option<Rgb>>,
    palette: Palette,
    display_offset: usize,
    k: int,
)
    ensures
        ({
            let shown = text_of(cell, redefined, palette);
            &&& shown.text.len() == 1 + cell.zerowidth@.len()
            &&& shown.text[0] == cell.c
            &&& 0 <= k < cell.zerowidth@.len() ==> shown.text[1 + k] == cell.zerowidth@[k]
            &&& shown.style.underline <==> cell.underlined || cell.hyperlink
            &&& shown.style.strikethrough <==> cell.strikeout
        }),
        view_row(cell.line, display_offset) - display_offset == cell.line,
{
}

/// A wide character covers two cells and is drawn with the first of them; what is
/// scrolled off at the top is not drawn, and every other cell is.
pub proof fn law_drawn_cells(cell: GridCell, display_offset: usize)
    ensures
        cell.wide ==> covered_cells(cell) == 2,
        !cell.wide ==> covered_cells(cell) == 1,
        cell.spacer ==> is_left_out(cell, display_offset),
        cell.line >= 0 && !cell.spacer ==> !is_left_out(cell, display_offset),
        cell.line < 0 && !cell.spacer ==> (is_left_out(cell, display_offset) <==> display_offset < -(
        cell.line as int)),
{
}

/// The rows that are listed are stale, and no others; without a list all are.
pub proof fn law_stale_rows(rows: Vec<usize>, k: int, row: int)
    ensures
        row_is_stale(None, row),
        0 <= k < rows@.len() ==> row_is_stale(Some(rows), rows@[k] as int),
        (forall|j: int| 0 <= j < rows@.len() ==> #[trigger] rows@[j] != row) ==> !row_is_stale(
            Some(rows),
            row,
        ),
{
    if 0 <= k < rows@.len() {
        let listed = rows@[k] as int;
        let all = Some(rows);
        assert(all->0@[k] == listed);
    }
}

} // verus!
