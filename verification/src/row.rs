//! Rows of the terminal grid: text runs of equal style, URLs, and which rows
//! have to be rebuilt.

use vstd::prelude::*;
use vstd::utf8::encode_utf8;

use crate::config::Rgb;
use crate::text::{
    byte_len, chars_of, has_prefix, is_white_space, is_whitespace, same_text, text_len,
};

verus! {

/// Text style of one cell; adjacent cells with equal styles share a section.
#[derive(Debug, Clone, Copy, PartialEq, Eq, Structural)]
pub struct CellStyle {
    pub fg: Rgb,
    pub underline: bool,
    pub strikethrough: bool,
}

/// Text and style of one grid cell.
pub struct RowCell {
    pub text: String,
    pub style: CellStyle,
}

/// Model of a [`RowCell`].
pub struct RowCellView {
    pub text: Seq<char>,
    pub style: CellStyle,
}

impl View for RowCell {
    type V = RowCellView;

    open spec fn view(&self) -> RowCellView {
        RowCellView { text: self.text@, style: self.style }
    }
}

/// The models of a row.
pub open spec fn cell_views(v: Seq<RowCell>) -> Seq<RowCellView> {
    Seq::new(v.len(), |i: int| v[i]@)
}

/// A run of cells of equal style: the bytes of the row's text that it covers.
#[derive(Debug, Clone, Copy, PartialEq, Eq, Structural)]
pub struct Section {
    pub start: usize,
    pub end: usize,
    pub style: CellStyle,
}

/// A row ready to be drawn.
pub struct RowLayout {
    pub text: String,
    pub sections: Vec<Section>,
}

/// The text of a row.
pub open spec fn row_text(cells: Seq<RowCellView>) -> Seq<char>
    decreases cells.len(),
{
    if cells.len() == 0 {
        Seq::empty()
    } else {
        row_text(cells.drop_last()) + cells.last().text
    }
}

/// The cells up to the last one that is not blank.
pub open spec fn without_blanks(cells: Seq<RowCellView>) -> Seq<RowCellView>
    decreases cells.len(),
{
    if cells.len() > 0 && cells.last().text == " "@ {
        without_blanks(cells.drop_last())
    } else {
        cells
    }
}

/// A section by mathematical positions.
pub struct SectionView {
    pub start: int,
    pub end: int,
    pub style: CellStyle,
}

/// The models of a list of sections.
pub open spec fn section_views(v: Seq<Section>) -> Seq<SectionView> {
    Seq::new(
        v.len(),
        |i: int|
            SectionView { start: v[i].start as int, end: v[i].end as int, style: v[i].style },
    )
}

/// The sections of a row: one for each run of cells of equal style.
pub open spec fn sections_of(cells: Seq<RowCellView>) -> Seq<SectionView>
    decreases cells.len(),
{
    if cells.len() == 0 {
        Seq::empty()
    } else {
        let before = sections_of(cells.drop_last());
        let style = cells.last().style;
        let end = byte_len(row_text(cells));
        if before.len() > 0 && before.last().style == style {
            before.drop_last().push(SectionView { end, ..before.last() })
        } else {
            before.push(SectionView { start: byte_len(row_text(cells.drop_last())), end, style })
        }
    }
}

/// Lay out a grid row: the plain text of the row with one section per run of
/// equal style. Trailing blank cells are dropped; the row starts at column 0,
/// so glyphs stay on the grid. Returns `None` for a row without any text.
pub fn layout_row(cells: &[RowCell]) -> (r: Option<RowLayout>)
    ensures
        ({
            let row = without_blanks(cell_views(cells@));
            match r {
                Some(layout) => {
                    &&& row.len() > 0
                    &&& layout.text@ == row_text(row)
                    &&& section_views(layout.sections@) == sections_of(row)
                },
                None => row.len() == 0,
            }
        }),
{
    let ghost all = cell_views(cells@);
    let mut n: usize = cells.len();
    proof {
        assert(all.take(n as int) =~= all);
    }
    while n > 0 && same_text(cells[n - 1].text.as_str(), " ")
        invariant
            all == cell_views(cells@),
            n <= cells@.len(),
            without_blanks(all) == without_blanks(all.take(n as int)),
        decreases n,
    {
        proof {
            assert(all.take(n as int).last() == cells@[n - 1]@);
            assert(all.take(n as int).drop_last() =~= all.take(n - 1));
        }
        n -= 1;
    }
    proof {
        if n > 0 {
            assert(all.take(n as int).last() == cells@[n - 1]@);
        }
    }
    if n == 0 {
        return None;
    }
    let ghost row = all.take(n as int);
    let mut text = String::new();
    let mut sections: Vec<Section> = Vec::new();
    let mut i: usize = 0;
    proof {
        assert(text@ =~= row_text(row.take(0)));
        assert(section_views(sections@) =~= sections_of(row.take(0)));
    }
    while i < n
        invariant
            all == cell_views(cells@),
            n <= cells@.len(),
            row == all.take(n as int),
            i <= n,
            text@ == row_text(row.take(i as int)),
            section_views(sections@) == sections_of(row.take(i as int)),
        decreases n - i,
    {
        let ghost before = section_views(sections@);
        proof {
            assert(row.take(i + 1).drop_last() =~= row.take(i as int));
            assert(row.take(i + 1).last() == cells@[i as int]@);
        }
        let start: usize = text_len(text.as_str());
        text.append(cells[i].text.as_str());
        let end: usize = text_len(text.as_str());
        let style = cells[i].style;
        let count: usize = sections.len();
        proof {
            if count > 0 {
                assert(before.last().style == sections@[count - 1].style);
                assert(before.last().start == sections@[count - 1].start);
            }
        }
        if count > 0 && sections[count - 1].style == style {
            let first: usize = sections[count - 1].start;
            sections.set(count - 1, Section { start: first, end, style });
            proof {
                assert(section_views(sections@) =~= before.drop_last().push(
                    SectionView { end: end as int, ..before.last() },
                ));
            }
        } else {
            sections.push(Section { start, end, style });
            proof {
                assert(section_views(sections@) =~= before.push(
                    SectionView { start: start as int, end: end as int, style },
                ));
            }
        }
        i += 1;
    }
    proof {
        assert(row.take(n as int) =~= row);
    }
    Some(RowLayout { text, sections })
}

// ---------------------------------------------------------------------------
// URLs.

/// A URL scheme starts at `i`.
pub open spec fn url_at(s: Seq<char>, i: int) -> bool {
    0 <= i <= s.len() && ("http://"@.is_prefix_of(s.skip(i)) || "https://"@.is_prefix_of(
        s.skip(i),
    ))
}

/// The end of the run at `i` without white space.
pub open spec fn run_end(s: Seq<char>, i: int) -> int
    decreases s.len() - i,
{
    if 0 <= i < s.len() && !is_white_space(s[i]) {
        run_end(s, i + 1)
    } else {
        i
    }
}

/// The spans of the URLs at `i` and after it: each runs from its scheme to the
/// next white space.
pub open spec fn urls_from(s: Seq<char>, i: int) -> Seq<(int, int)>
    decreases s.len() - i,
{
    if !(0 <= i < s.len()) {
        Seq::empty()
    } else if url_at(s, i) && i < run_end(s, i) <= s.len() {
        seq![(i, run_end(s, i))] + urls_from(s, run_end(s, i))
    } else {
        urls_from(s, i + 1)
    }
}

/// The models of a list of spans.
pub open spec fn url_views(v: Seq<(usize, usize)>) -> Seq<(int, int)> {
    Seq::new(v.len(), |i: int| (v[i].0 as int, v[i].1 as int))
}

fn starts_url(chars: &[char], i: usize) -> (r: bool)
    requires
        i <= chars@.len(),
    ensures
        r == url_at(chars@, i as int),
{
    let tail = vstd::slice::slice_subrange(chars, i, chars.len());
    proof {
        assert(tail@ =~= chars@.skip(i as int));
    }
    let plain = chars_of("http://");
    let secure = chars_of("https://");
    has_prefix(tail, plain.as_slice()) || has_prefix(tail, secure.as_slice())
}

/// The spans, in characters, of the `http(s)://` URLs in a text: each runs
/// from its scheme to the next white space.
pub fn find_urls(text: &str) -> (r: Vec<(usize, usize)>)
    ensures
        url_views(r@) == urls_from(text@, 0),
{
    let chars = chars_of(text);
    let ghost s = text@;
    let mut spans: Vec<(usize, usize)> = Vec::new();
    let mut i: usize = 0;
    proof {
        assert(url_views(spans@) + urls_from(s, 0) =~= urls_from(s, 0));
    }
    while i < chars.len()
        invariant
            s == chars@,
            i <= chars@.len(),
            urls_from(s, 0) == url_views(spans@) + urls_from(s, i as int),
        decreases chars.len() - i,
    {
        let mut end: usize = i;
        if starts_url(chars.as_slice(), i) {
            while end < chars.len() && !is_whitespace(chars[end])
                invariant
                    s == chars@,
                    i <= end <= chars@.len(),
                    run_end(s, i as int) == run_end(s, end as int),
                decreases chars.len() - end,
            {
                end += 1;
            }
        }
        if end > i {
            let ghost before = url_views(spans@);
            spans.push((i, end));
            proof {
                assert(url_views(spans@) =~= before.push((i as int, end as int)));
                assert(before + (seq![(i as int, end as int)] + urls_from(s, end as int))
                    =~= url_views(spans@) + urls_from(s, end as int));
            }
            i = end;
        } else {
            i += 1;
        }
    }
    proof {
        assert(url_views(spans@) + Seq::<(int, int)>::empty() =~= url_views(spans@));
    }
    spans
}

/// The characters `from..to` of a text overlap a span of `spans`.
pub open spec fn in_spans(spans: Seq<(int, int)>, from: int, to: int) -> bool {
    exists|k: int| 0 <= k < spans.len() && from < (#[trigger] spans[k]).1 && spans[k].0 < to
}

/// The cell at `i` with what a URL in the row's text makes of it: an
/// underline where the URL covers it.
pub open spec fn underlined(cells: Seq<RowCellView>, i: int) -> RowCellView {
    let from = row_text(cells.take(i)).len() as int;
    let to = from + cells[i].text.len();
    let cell = cells[i];
    if in_spans(urls_from(row_text(cells), 0), from, to) {
        RowCellView { style: CellStyle { underline: true, ..cell.style }, ..cell }
    } else {
        cell
    }
}

/// The row with its URLs underlined.
pub open spec fn with_urls(cells: Seq<RowCellView>) -> Seq<RowCellView> {
    Seq::new(cells.len(), |i: int| underlined(cells, i))
}

fn overlaps(spans: &[(usize, usize)], from: usize, to: usize) -> (r: bool)
    ensures
        r == in_spans(url_views(spans@), from as int, to as int),
{
    let ghost all = url_views(spans@);
    let mut k: usize = 0;
    while k < spans.len()
        invariant
            all == url_views(spans@),
            k <= spans@.len(),
            forall|j: int| 0 <= j < k ==> !(from < (#[trigger] all[j]).1 && all[j].0 < to),
        decreases spans.len() - k,
    {
        let (start, end) = spans[k];
        if from < end && start < to {
            proof {
                assert(from < all[k as int].1 && all[k as int].0 < to);
            }
            return true;
        }
        k += 1;
    }
    false
}

/// Underline the cells covered by typed `http(s)://` URLs in a row (the
/// terminal's own detection; OSC-8 hyperlinks are underlined per cell).
/// Runs on row rebuild only, i.e. for damaged rows.
pub fn underline_urls(cells: &mut Vec<RowCell>)
    requires
        row_text(cell_views(old(cells)@)).len() <= usize::MAX,
    ensures
        cell_views(final(cells)@) == with_urls(cell_views(old(cells)@)),
{
    let ghost all = cell_views(cells@);
    let mut text = String::new();
    let mut i: usize = 0;
    proof {
        assert(text@ =~= row_text(all.take(0)));
    }
    while i < cells.len()
        invariant
            cells@ == old(cells)@,
            all == cell_views(cells@),
            i <= cells@.len(),
            text@ == row_text(all.take(i as int)),
        decreases cells.len() - i,
    {
        text.append(cells[i].text.as_str());
        proof {
            assert(all.take(i + 1).drop_last() =~= all.take(i as int));
            assert(all.take(i + 1).last() == cells@[i as int]@);
        }
        i += 1;
    }
    proof {
        assert(all.take(all.len() as int) =~= all);
    }
    let spans = find_urls(text.as_str());
    let ghost urls = urls_from(row_text(all), 0);
    // Character index of the current cell in the row text.
    let mut offset: usize = 0;
    let mut k: usize = 0;
    proof {
        assert(row_text(all.take(0)).len() == 0);
    }
    while k < cells.len()
        invariant
            all == cell_views(old(cells)@),
            urls == urls_from(row_text(all), 0),
            url_views(spans@) == urls,
            row_text(all).len() <= usize::MAX,
            cells@.len() == all.len(),
            k <= cells@.len(),
            offset == row_text(all.take(k as int)).len(),
            forall|j: int| 0 <= j < k ==> (#[trigger] cells@[j])@ == underlined(all, j),
            forall|j: int| k <= j < cells@.len() ==> (#[trigger] cells@[j])@ == all[j],
        decreases cells@.len() - k,
    {
        let len: usize = chars_of(cells[k].text.as_str()).len();
        proof {
            assert(cells@[k as int]@ == all[k as int]);
            assert(all.take(k + 1).drop_last() =~= all.take(k as int));
            lemma_row_text_prefix(all, k + 1);
        }
        if overlaps(spans.as_slice(), offset, offset + len) {
            let text = cells[k].text.clone();
            let style = CellStyle {
                fg: cells[k].style.fg,
                underline: true,
                strikethrough: cells[k].style.strikethrough,
            };
            cells.set(k, RowCell { text, style });
        }
        offset = offset + len;
        k += 1;
    }
    proof {
        assert(cell_views(cells@) =~= with_urls(all));
    }
}

proof fn lemma_row_text_prefix(cells: Seq<RowCellView>, n: int)
    requires
        0 <= n <= cells.len(),
    ensures
        row_text(cells.take(n)).len() <= row_text(cells).len(),
    decreases cells.len(),
{
    if n == cells.len() {
        assert(cells.take(n) =~= cells);
    } else {
        assert(cells.drop_last().take(n) =~= cells.take(n));
        lemma_row_text_prefix(cells.drop_last(), n);
    }
}

// ---------------------------------------------------------------------------
// Damage.

/// What the terminal reported as changed, by display rows.
pub enum Damage {
    Full,
    Partial(Vec<usize>),
}

/// What the cached rows were built for.
#[derive(Debug, Clone, Copy, PartialEq, Eq, Structural)]
pub struct CacheContext {
    pub display_offset: usize,
    pub screen_lines: usize,
}

/// The lines within the view.
pub open spec fn visible_lines(lines: Seq<usize>, screen_lines: usize) -> Seq<usize> {
    lines.filter(|line: usize| line < screen_lines)
}

/// The rows to rebuild; all of them where it is `None`.
pub open spec fn rows_to_rebuild(
    damage: Damage,
    cached: CacheContext,
    current: CacheContext,
    same_font: bool,
) -> Option<Seq<usize>> {
    match damage {
        Damage::Partial(lines) if cached == current && same_font => Some(
            visible_lines(lines@, current.screen_lines),
        ),
        _ => None,
    }
}

/// Which cached rows to rebuild (`None` = all): everything on full damage
/// or when the cache context (scroll offset, font, viewport height) no
/// longer matches; just the damaged lines otherwise.
pub fn stale_rows(
    damage: &Damage,
    cached: CacheContext,
    current: CacheContext,
    same_font: bool,
) -> (r: Option<Vec<usize>>)
    ensures
        match r {
            Some(rows) => rows_to_rebuild(*damage, cached, current, same_font) == Some(rows@),
            None => rows_to_rebuild(*damage, cached, current, same_font) is None,
        },
        match damage {
            Damage::Full => r is None,
            Damage::Partial(lines) => if cached == current && same_font {
                r matches Some(v) && v@ == visible_lines(lines@, current.screen_lines)
            } else {
                r is None
            },
        },
{
    if cached.display_offset != current.display_offset || !same_font || cached.screen_lines
        != current.screen_lines {
        return None;
    }
    match damage {
        Damage::Full => None,
        Damage::Partial(lines) => {
            let ghost keep = |line: usize| line < current.screen_lines;
            let mut out: Vec<usize> = Vec::new();
            let mut i: usize = 0;
            proof {
                assert(lines@.take(0).filter(keep) =~= Seq::<usize>::empty()) by {
                    reveal(Seq::filter);
                }
            }
            while i < lines.len()
                invariant
                    keep == (|line: usize| line < current.screen_lines),
                    i <= lines@.len(),
                    out@ == lines@.take(i as int).filter(keep),
                decreases lines.len() - i,
            {
                proof {
                    reveal(Seq::filter);
                    assert(lines@.take(i + 1).drop_last() =~= lines@.take(i as int));
                    assert(lines@.take(i + 1).last() == lines@[i as int]);
                }
                if lines[i] < current.screen_lines {
                    out.push(lines[i]);
                }
                i += 1;
            }
            proof {
                assert(lines@.take(lines@.len() as int) =~= lines@);
            }
            Some(out)
        },
    }
}

// ---------------------------------------------------------------------------
// Laws.

/// The sections of a row cover its text seamlessly: the first starts at 0,
/// each starts where the one before ends, the last ends at the end, and
/// neighbours differ in style.
pub open spec fn seamless(sections: Seq<SectionView>, total: int) -> bool {
    &&& sections.len() > 0 ==> sections[0].start == 0 && sections.last().end == total
    &&& forall|i: int|
        0 <= i < sections.len() - 1 ==> (#[trigger] sections[i]).end == sections[i + 1].start
            && sections[i].style != sections[i + 1].style
}

/// The sections of a row cover its text seamlessly, and no two neighbours
/// have the same style.
pub proof fn law_sections_are_seamless(cells: Seq<RowCellView>)
    ensures
        seamless(sections_of(cells), byte_len(row_text(cells))),
        cells.len() > 0 ==> sections_of(cells).len() > 0 && sections_of(cells).last().style
            == cells.last().style,
    decreases cells.len(),
{
    if cells.len() > 0 {
        let head = cells.drop_last();
        law_sections_are_seamless(head);
        let before = sections_of(head);
        let after = sections_of(cells);
        if head.len() == 0 {
            assert(before == Seq::<SectionView>::empty());
            assert(byte_len(Seq::<char>::empty()) == 0) by {
                reveal(byte_len);
            }
            assert(row_text(head) == Seq::<char>::empty());
        } else if before.last().style == cells.last().style {
            assert forall|i: int| 0 <= i < after.len() - 1 implies (#[trigger] after[i]).end
                == after[i + 1].start && after[i].style != after[i + 1].style by {
                assert(after[i] == before[i]);
                assert(after[i + 1].start == before[i + 1].start);
                assert(after[i + 1].style == before[i + 1].style);
            }
        } else {
            assert forall|i: int| 0 <= i < after.len() - 1 implies (#[trigger] after[i]).end
                == after[i + 1].start && after[i].style != after[i + 1].style by {
                assert(after[i] == before[i]);
                if i + 1 < before.len() {
                    assert(after[i + 1] == before[i + 1]);
                }
            }
        }
    }
}

/// Underlining URLs changes no text.
pub proof fn law_urls_keep_text(cells: Seq<RowCellView>, i: int)
    requires
        0 <= i < cells.len(),
    ensures
        with_urls(cells)[i].text == cells[i].text,
        with_urls(cells)[i].style.fg == cells[i].style.fg,
        with_urls(cells)[i].style.strikethrough == cells[i].style.strikethrough,
        cells[i].style.underline ==> with_urls(cells)[i].style.underline,
{
}

/// A row that is drawn does not end in a blank cell.
pub proof fn law_no_trailing_blanks(cells: Seq<RowCellView>)
    ensures
        without_blanks(cells).len() > 0 ==> without_blanks(cells).last().text != " "@,
        without_blanks(cells).is_prefix_of(cells),
    decreases cells.len(),
{
    if cells.len() > 0 && cells.last().text == " "@ {
        law_no_trailing_blanks(cells.drop_last());
        let row = without_blanks(cells);
        assert(row =~= cells.subrange(0, row.len() as int));
    } else {
        assert(cells =~= cells.subrange(0, cells.len() as int));
    }
}

/// A row's text is that of its cells in order, and of its length in bytes each
/// section tells a part.
pub proof fn law_row_texts(cells: Seq<RowCellView>, cell: RowCellView)
    ensures
        row_text(cells.push(cell)) == row_text(cells) + cell.text,
        row_text(Seq::empty()) == Seq::<char>::empty(),
        byte_len(row_text(cells)) == encode_utf8(row_text(cells)).len(),
{
    reveal(byte_len);
    assert(cells.push(cell).drop_last() =~= cells);
}

/// One more cell of the same style as the one before makes the last section
/// longer; one of another style starts a section of its own where that one
/// ends. The sections before stay.
pub proof fn law_sections_grow(cells: Seq<RowCellView>, cell: RowCellView, k: int)
    ensures
        ({
            let before = sections_of(cells);
            let after = sections_of(cells.push(cell));
            let same = cells.len() > 0 && cells.last().style == cell.style;
            &&& after.len() == before.len() + if same {
                0int
            } else {
                1
            }
            &&& after.last().style == cell.style
            &&& after.last().end == byte_len(row_text(cells) + cell.text)
            &&& after.last().start == if same {
                before.last().start
            } else {
                byte_len(row_text(cells))
            }
            &&& 0 <= k < after.len() - 1 ==> after[k] == before[k]
        }),
        sections_of(Seq::empty()) == Seq::<SectionView>::empty(),
{
    assert(cells.push(cell).drop_last() =~= cells);
    law_sections_are_seamless(cells);
}

/// The cells that hold a blank alone are dropped at the end of a row, and no
/// others.
pub proof fn law_blanks_are_dropped(cells: Seq<RowCellView>, blanks: Seq<RowCellView>)
    requires
        cells.len() > 0 ==> cells.last().text != seq![' '],
        forall|k: int| 0 <= k < blanks.len() ==> (#[trigger] blanks[k]).text == seq![' '],
    ensures
        without_blanks(cells + blanks) == cells,
    decreases blanks.len(),
{
    reveal_strlit(" ");
    assert(" "@ =~= seq![' ']);
    let all = cells + blanks;
    if blanks.len() > 0 {
        assert(all.last() == blanks[blanks.len() - 1]);
        assert(all.drop_last() =~= cells + blanks.drop_last());
        assert forall|k: int| 0 <= k < blanks.drop_last().len() implies (
        #[trigger] blanks.drop_last()[k]).text == seq![' '] by {
            assert(blanks[k].text == seq![' ']);
        }
        law_blanks_are_dropped(cells, blanks.drop_last());
    } else {
        assert(all =~= cells);
    }
}

/// `http://` or `https://` stands at `i`.
pub open spec fn scheme_at(s: Seq<char>, i: int) -> bool {
    let plain = seq!['h', 't', 't', 'p', ':', '/', '/'];
    let secure = seq!['h', 't', 't', 'p', 's', ':', '/', '/'];
    0 <= i <= s.len() && ((i + 7 <= s.len() && s.subrange(i, i + 7) == plain) || (i + 8 <= s.len()
        && s.subrange(i, i + 8) == secure))
}

proof fn lemma_scheme(s: Seq<char>, i: int)
    ensures
        url_at(s, i) <==> scheme_at(s, i),
        scheme_at(s, i) ==> i < s.len() && s[i] == 'h',
{
    let plain = seq!['h', 't', 't', 'p', ':', '/', '/'];
    let secure = seq!['h', 't', 't', 'p', 's', ':', '/', '/'];
    reveal_strlit("http://");
    reveal_strlit("https://");
    assert("http://"@ =~= plain);
    assert("https://"@ =~= secure);
    if 0 <= i <= s.len() {
        if i + 7 <= s.len() {
            assert(s.skip(i).subrange(0, 7) =~= s.subrange(i, i + 7));
            if s.subrange(i, i + 7) == plain {
                assert(s[i] == s.subrange(i, i + 7)[0]);
            }
        }
        if i + 8 <= s.len() {
            assert(s.skip(i).subrange(0, 8) =~= s.subrange(i, i + 8));
            if s.subrange(i, i + 8) == secure {
                assert(s[i] == s.subrange(i, i + 8)[0]);
            }
        }
    }
}

proof fn lemma_run_end(s: Seq<char>, i: int)
    requires
        0 <= i <= s.len(),
    ensures
        i <= run_end(s, i) <= s.len(),
        run_end(s, i) < s.len() ==> is_white_space(s[run_end(s, i)]),
        forall|j: int| i <= j < run_end(s, i) ==> !is_white_space(#[trigger] s[j]),
    decreases s.len() - i,
{
    if i < s.len() && !is_white_space(s[i]) {
        lemma_run_end(s, i + 1);
    }
}

/// The span runs from a scheme to the next white space, or to the end.
pub open spec fn is_url(s: Seq<char>, span: (int, int)) -> bool {
    &&& 0 <= span.0 < span.1 <= s.len()
    &&& scheme_at(s, span.0)
    &&& forall|j: int| span.0 <= j < span.1 ==> !is_white_space(#[trigger] s[j])
    &&& span.1 < s.len() ==> is_white_space(s[span.1])
}

proof fn lemma_urls(s: Seq<char>, i: int)
    requires
        0 <= i,
    ensures
        forall|k: int|
            0 <= k < urls_from(s, i).len() ==> is_url(s, #[trigger] urls_from(s, i)[k]) && i
                <= urls_from(s, i)[k].0,
        forall|j: int, k: int|
            0 <= j < k < urls_from(s, i).len() ==> (#[trigger] urls_from(s, i)[j]).1 <= (
            #[trigger] urls_from(s, i)[k]).0,
        forall|p: int|
            i <= p && #[trigger] scheme_at(s, p) ==> in_spans(urls_from(s, i), p, p + 1),
    decreases s.len() - i,
{
    lemma_scheme(s, i);
    let all = urls_from(s, i);
    if i < s.len() {
        lemma_run_end(s, i);
        if url_at(s, i) {
            assert(!is_white_space(s[i]));
            let end = run_end(s, i);
            assert(i < end);
            let rest = urls_from(s, end);
            lemma_urls(s, end);
            assert(all == seq![(i, end)] + rest);
            assert(is_url(s, (i, end)));
            assert forall|k: int| 0 <= k < all.len() implies is_url(s, #[trigger] all[k]) && i
                <= all[k].0 by {
                if k > 0 {
                    assert(all[k] == rest[k - 1]);
                }
            }
            assert forall|j: int, k: int| 0 <= j < k < all.len() implies (#[trigger] all[j]).1 <= (
            #[trigger] all[k]).0 by {
                assert(all[k] == rest[k - 1]);
                if j > 0 {
                    assert(all[j] == rest[j - 1]);
                }
            }
            assert forall|p: int| i <= p && #[trigger] scheme_at(s, p) implies in_spans(all, p, p + 1) by {
                lemma_scheme(s, p);
                if p < end {
                    assert(p < all[0].1 && all[0].0 < p + 1);
                } else {
                    assert(in_spans(rest, p, p + 1));
                    let k = choose|k: int|
                        0 <= k < rest.len() && p < (#[trigger] rest[k]).1 && rest[k].0 < p + 1;
                    assert(p < all[k + 1].1 && all[k + 1].0 < p + 1);
                }
            }
        } else {
            lemma_urls(s, i + 1);
            let rest = urls_from(s, i + 1);
            assert(all == rest);
            assert forall|k: int| 0 <= k < all.len() implies is_url(s, #[trigger] all[k]) && i
                <= all[k].0 by {
                assert(is_url(s, rest[k]));
            }
            assert forall|j: int, k: int| 0 <= j < k < all.len() implies (#[trigger] all[j]).1 <= (
            #[trigger] all[k]).0 by {
                assert(rest[j].1 <= rest[k].0);
            }
        }
    } else {
        assert(all == Seq::<(int, int)>::empty());
        assert forall|p: int| i <= p && #[trigger] scheme_at(s, p) implies in_spans(all, p, p + 1) by {
            lemma_scheme(s, p);
        }
    }
}

/// The URLs of a text are runs without white space that start with a scheme and
/// go on as far as they can, in order and apart.
pub proof fn law_urls_are_runs(s: Seq<char>, j: int, k: int)
    requires
        0 <= j < k < urls_from(s, 0).len(),
    ensures
        is_url(s, urls_from(s, 0)[j]),
        is_url(s, urls_from(s, 0)[k]),
        urls_from(s, 0)[j].1 <= urls_from(s, 0)[k].0,
{
    lemma_urls(s, 0);
}

/// No scheme stands outside the URLs of a text, and each of them is one.
pub proof fn law_every_scheme_is_in_a_url(s: Seq<char>, p: int, k: int)
    ensures
        0 <= p && scheme_at(s, p) ==> exists|i: int|
            0 <= i < urls_from(s, 0).len() && (#[trigger] urls_from(s, 0)[i]).0 <= p
                && p < urls_from(s, 0)[i].1,
        0 <= k < urls_from(s, 0).len() ==> is_url(s, urls_from(s, 0)[k]),
{
    lemma_urls(s, 0);
    let all = urls_from(s, 0);
    if 0 <= p && scheme_at(s, p) {
        assert(in_spans(all, p, p + 1));
        let i = choose|i: int| 0 <= i < all.len() && p < (#[trigger] all[i]).1 && all[i].0 < p + 1;
        assert(all[i].0 <= p);
    }
}

/// A cell is underlined where it was already, or where one of its characters
/// lies in a URL of the row.
pub proof fn law_url_cells_are_underlined(cells: Seq<RowCellView>, i: int, k: int)
    requires
        0 <= i < cells.len(),
        cells[i].text.len() > 0,
    ensures
        ({
            let from = row_text(cells.take(i)).len() as int;
            let spans = urls_from(row_text(cells), 0);
            let cell = with_urls(cells)[i];
            &&& 0 <= k < spans.len() && spans[k].0 < from + cells[i].text.len() && from < spans[k].1
                ==> cell.style.underline
            &&& cell.style.underline && !cells[i].style.underline ==> exists|j: int|
                0 <= j < spans.len() && (#[trigger] spans[j]).0 < from + cells[i].text.len() && from
                    < spans[j].1
        }),
{
    let from = row_text(cells.take(i)).len() as int;
    let to = from + cells[i].text.len();
    let spans = urls_from(row_text(cells), 0);
    if in_spans(spans, from, to) {
        let j = choose|j: int|
            0 <= j < spans.len() && from < (#[trigger] spans[j]).1 && spans[j].0 < to;
        assert(spans[j].0 < to && from < spans[j].1);
    }
    if 0 <= k < spans.len() && spans[k].0 < to && from < spans[k].1 {
        assert(in_spans(spans, from, to));
    }
}

/// All rows are rebuilt after full damage, after a change of the font, and where
/// the view was scrolled or resized; else those that are damaged.
pub proof fn law_rows_to_rebuild(
    lines: Vec<usize>,
    cached: CacheContext,
    current: CacheContext,
    same_font: bool,
)
    ensures
        rows_to_rebuild(Damage::Full, cached, current, same_font) is None,
        rows_to_rebuild(Damage::Partial(lines), cached, current, false) is None,
        cached.display_offset != current.display_offset || cached.screen_lines
            != current.screen_lines ==> rows_to_rebuild(
            Damage::Partial(lines),
            cached,
            current,
            same_font,
        ) is None,
        rows_to_rebuild(Damage::Partial(lines), current, current, true) == Some(
            visible_lines(lines@, current.screen_lines),
        ),
{
}

/// Of the damaged lines those in the view are kept, in order.
pub proof fn law_visible_lines(lines: Seq<usize>, line: usize, screen_lines: usize)
    ensures
        visible_lines(lines.push(line), screen_lines) == if line < screen_lines {
            visible_lines(lines, screen_lines).push(line)
        } else {
            visible_lines(lines, screen_lines)
        },
        visible_lines(Seq::empty(), screen_lines) == Seq::<usize>::empty(),
{
    reveal(Seq::filter);
    assert(lines.push(line).drop_last() =~= lines);
}

} // verus!
