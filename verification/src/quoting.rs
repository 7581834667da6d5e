//! What quotes, escapes, variables and operators make of a line.

use vstd::prelude::*;

use crate::joining::{
    lemma_keep_tokens, lemma_move_tokens, moved_tokens, stands_at, text_goes_on,
};
use crate::lexer::{
    at, close_paren, coalesce, find_char, is_operator_char, is_plain, lemma_coalesce_push_quoted,
    lemma_find_char, lexed, name_end, prepend, quoted_run, scan_double, scan_word, token_at,
    tokens_from, var_at, ParseError, PartView, Piece, Scan, SpannedView, TokenView,
};
use crate::text::{is_digit_char, is_name_char, is_white_space};

verus! {

// ---------------------------------------------------------------------------
// Pieces.

/// The characters of `text`, quoted.
pub open spec fn quoted_pieces(text: Seq<char>) -> Seq<Piece>
    decreases text.len(),
{
    if text.len() == 0 {
        Seq::empty()
    } else {
        quoted_pieces(text.drop_last()).push(Piece::Quoted(text.last()))
    }
}

/// The characters of `text`, unquoted.
pub open spec fn raw_pieces(text: Seq<char>) -> Seq<Piece>
    decreases text.len(),
{
    if text.len() == 0 {
        Seq::empty()
    } else {
        raw_pieces(text.drop_last()).push(Piece::Raw(text.last()))
    }
}

proof fn lemma_quoted_push(text: Seq<char>, c: char)
    ensures
        quoted_pieces(text.push(c)) == quoted_pieces(text).push(Piece::Quoted(c)),
{
    let all = text.push(c);
    assert(all.drop_last() =~= text);
    assert(all.last() == c);
}

proof fn lemma_raw_push(text: Seq<char>, c: char)
    ensures
        raw_pieces(text.push(c)) == raw_pieces(text).push(Piece::Raw(c)),
{
    let all = text.push(c);
    assert(all.drop_last() =~= text);
    assert(all.last() == c);
}

proof fn lemma_quoted_first_step(c: char, head: Seq<char>, d: char)
    requires
        quoted_pieces(seq![c] + head) == seq![Piece::Quoted(c)] + quoted_pieces(head),
    ensures
        quoted_pieces(seq![c] + head.push(d)) == seq![Piece::Quoted(c)] + quoted_pieces(head.push(d)),
{
    let first = seq![Piece::Quoted(c)];
    lemma_quoted_push(head, d);
    lemma_quoted_push(seq![c] + head, d);
    assert((seq![c] + head).push(d) =~= seq![c] + head.push(d));
    let last = Piece::Quoted(d);
    assert((first + quoted_pieces(head)).push(last) =~= first + quoted_pieces(head).push(last));
}

proof fn lemma_quoted_first(c: char, text: Seq<char>)
    ensures
        quoted_pieces(seq![c] + text) == seq![Piece::Quoted(c)] + quoted_pieces(text),
    decreases text.len(),
{
    let first = seq![Piece::Quoted(c)];
    if text.len() == 0 {
        let none = Seq::<char>::empty();
        assert(seq![c] + text =~= none.push(c));
        lemma_quoted_push(none, c);
        assert(quoted_pieces(none).push(Piece::Quoted(c)) =~= first + quoted_pieces(text));
    } else {
        let head = text.drop_last();
        lemma_quoted_first(c, head);
        lemma_quoted_first_step(c, head, text.last());
        assert(head.push(text.last()) =~= text);
    }
}

proof fn lemma_raw_first_step(c: char, head: Seq<char>, d: char)
    requires
        raw_pieces(seq![c] + head) == seq![Piece::Raw(c)] + raw_pieces(head),
    ensures
        raw_pieces(seq![c] + head.push(d)) == seq![Piece::Raw(c)] + raw_pieces(head.push(d)),
{
    let first = seq![Piece::Raw(c)];
    lemma_raw_push(head, d);
    lemma_raw_push(seq![c] + head, d);
    assert((seq![c] + head).push(d) =~= seq![c] + head.push(d));
    let last = Piece::Raw(d);
    assert((first + raw_pieces(head)).push(last) =~= first + raw_pieces(head).push(last));
}

proof fn lemma_raw_first(c: char, text: Seq<char>)
    ensures
        raw_pieces(seq![c] + text) == seq![Piece::Raw(c)] + raw_pieces(text),
    decreases text.len(),
{
    let first = seq![Piece::Raw(c)];
    if text.len() == 0 {
        let none = Seq::<char>::empty();
        assert(seq![c] + text =~= none.push(c));
        lemma_raw_push(none, c);
        assert(raw_pieces(none).push(Piece::Raw(c)) =~= first + raw_pieces(text));
    } else {
        let head = text.drop_last();
        lemma_raw_first(c, head);
        lemma_raw_first_step(c, head, text.last());
        assert(head.push(text.last()) =~= text);
    }
}

/// The pieces of a text are as many as its characters, quoted or not.
spec fn ends_fit(text: Seq<char>) -> bool {
    &&& quoted_pieces(text).len() == text.len()
    &&& raw_pieces(text).len() == text.len()
    &&& text.len() > 0 ==> quoted_pieces(text)[0] is Quoted && quoted_pieces(text).last() is Quoted
    &&& text.len() > 0 ==> raw_pieces(text)[0] is Raw && raw_pieces(text).last() is Raw
}

proof fn lemma_pieces_push(head: Seq<char>, d: char)
    requires
        ends_fit(head),
    ensures
        ends_fit(head.push(d)),
{
    lemma_quoted_push(head, d);
    lemma_raw_push(head, d);
    let all = head.push(d);
    if head.len() > 0 {
        assert(quoted_pieces(all)[0] == quoted_pieces(head)[0]);
        assert(raw_pieces(all)[0] == raw_pieces(head)[0]);
    }
}

proof fn lemma_pieces_ends(text: Seq<char>)
    ensures
        ends_fit(text),
    decreases text.len(),
{
    if text.len() > 0 {
        let head = text.drop_last();
        lemma_pieces_ends(head);
        lemma_pieces_push(head, text.last());
        assert(head.push(text.last()) =~= text);
    }
}

proof fn lemma_coalesce_quoted(text: Seq<char>)
    requires
        text.len() > 0,
    ensures
        coalesce(quoted_pieces(text)) == seq![PartView::QLit(text)],
    decreases text.len(),
{
    let head = text.drop_last();
    let c = text.last();
    assert(head.push(c) =~= text);
    lemma_quoted_push(head, c);
    lemma_pieces_ends(head);
    lemma_coalesce_push_quoted(quoted_pieces(text), quoted_pieces(head), c);
    if head.len() > 0 {
        lemma_coalesce_quoted(head);
    } else {
        assert(seq![c] =~= text);
    }
}

proof fn lemma_coalesce_push_raw(all: Seq<Piece>, run: Seq<Piece>, text: Seq<char>, c: char)
    requires
        all == run.push(Piece::Raw(c)),
        run.len() == text.len(),
        text.len() > 0 ==> run.last() is Raw && coalesce(run) == seq![PartView::Lit(text)],
    ensures
        coalesce(all) == seq![PartView::Lit(text.push(c))],
{
    assert(all.drop_last() =~= run);
    if run.len() == 0 {
        assert(coalesce(run) == Seq::<PartView>::empty());
        assert(text.push(c) =~= seq![c]);
        assert(coalesce(all) =~= seq![PartView::Lit(seq![c])]);
    } else {
        assert(coalesce(all) =~= seq![PartView::Lit(text.push(c))]);
    }
}

proof fn lemma_coalesce_raw(text: Seq<char>)
    requires
        text.len() > 0,
    ensures
        coalesce(raw_pieces(text)) == seq![PartView::Lit(text)],
    decreases text.len(),
{
    let head = text.drop_last();
    let c = text.last();
    assert(head.push(c) =~= text);
    lemma_raw_push(head, c);
    lemma_pieces_ends(head);
    if head.len() > 0 {
        lemma_coalesce_raw(head);
    }
    lemma_coalesce_push_raw(raw_pieces(text), raw_pieces(head), head, c);
}

/// The two pieces make up one literal together.
spec fn merge(a: Piece, b: Piece) -> bool {
    (a is Raw && b is Raw) || (a is Quoted && b is Quoted)
}

proof fn lemma_coalesce_apart(a: Seq<Piece>, b: Seq<Piece>)
    requires
        a.len() > 0 && b.len() > 0 ==> !merge(a.last(), b[0]),
    ensures
        coalesce(a + b) == coalesce(a) + coalesce(b),
    decreases b.len(),
{
    if b.len() == 0 {
        assert(a + b =~= a);
        assert(coalesce(a) + coalesce(b) =~= coalesce(a));
    } else {
        let head = b.drop_last();
        assert((a + b).drop_last() =~= a + head);
        lemma_coalesce_apart(a, head);
        let joins = b.len() >= 2;
        if joins {
            assert((a + b)[(a + b).len() - 2] == b[b.len() - 2]);
            if merge(b[b.len() - 2], b.last()) {
                lemma_coalesce_last(head);
            }
        } else if a.len() > 0 {
            assert((a + b)[(a + b).len() - 2] == a.last());
            assert(coalesce(head) =~= Seq::<PartView>::empty());
        } else {
            assert(coalesce(head) =~= Seq::<PartView>::empty());
        }
        assert(coalesce(a + b) =~= coalesce(a) + coalesce(b));
    }
}

proof fn lemma_coalesce_last(a: Seq<Piece>)
    requires
        a.len() > 0,
    ensures
        a.last() is Raw || a.last() is Quoted ==> coalesce(a).len() > 0,
{
}

proof fn lemma_quoted_run(s: Seq<char>, i: int, k: int)
    requires
        0 <= i <= k <= s.len(),
    ensures
        quoted_run(s, i, k) == quoted_pieces(s.subrange(i, k)),
    decreases k - i,
{
    if i < k {
        lemma_quoted_run(s, i, k - 1);
        lemma_quoted_push(s.subrange(i, k - 1), s[k - 1]);
        assert(s.subrange(i, k - 1).push(s[k - 1]) =~= s.subrange(i, k));
    } else {
        assert(s.subrange(i, k) =~= Seq::<char>::empty());
    }
}

// ---------------------------------------------------------------------------
// Lines of one word.

/// A line that is one word with the parts `parts`.
pub open spec fn is_word(line: Seq<char>, parts: Seq<PartView>) -> bool {
    lexed(line) == Ok::<Seq<SpannedView>, ParseError>(
        seq![SpannedView { start: 0, end: line.len() as int, token: TokenView::Word(parts) }],
    )
}

/// `scan` read `pieces`, up to `end`.
spec fn reads(scan: Scan, pieces: Seq<Piece>, end: int) -> bool {
    scan == Ok::<(Seq<Piece>, int), ParseError>((pieces, end))
}

proof fn lemma_one_word(s: Seq<char>, pieces: Seq<Piece>)
    requires
        s.len() > 0,
        !is_white_space(s[0]),
        !is_operator_char(s[0]),
        !(s[0] == '2' && at(s, 1, '>')),
        reads(scan_word(s, 0, 0), pieces, s.len() as int),
    ensures
        is_word(s, coalesce(pieces)),
{
    let n = s.len() as int;
    let here = SpannedView { start: 0, end: n, token: TokenView::Word(coalesce(pieces)) };
    assert(token_at(s, 0) == Ok::<(TokenView, int), ParseError>((here.token, n)));
    assert(tokens_from(s, n) == Ok::<Seq<SpannedView>, ParseError>(Seq::empty()));
    assert(seq![here] + Seq::<SpannedView>::empty() =~= seq![here]);
}

/// A character that stands for itself inside a word.
pub open spec fn is_inner(c: char) -> bool {
    is_plain(c) || c == '~'
}

proof fn lemma_scan_raw_step(s: Seq<char>, i: int, k: int, start: int, c: char)
    requires
        0 <= i < k <= s.len(),
        c == s[i],
        is_inner(c),
        c == '~' ==> i != start,
        scan_word(s, i + 1, start) == prepend(
            raw_pieces(s.subrange(i + 1, k)),
            scan_word(s, k, start),
        ),
    ensures
        scan_word(s, i, start) == prepend(raw_pieces(s.subrange(i, k)), scan_word(s, k, start)),
{
    let one = seq![Piece::Raw(c)];
    assert(scan_word(s, i, start) == prepend(one, scan_word(s, i + 1, start)));
    let more = raw_pieces(s.subrange(i + 1, k));
    lemma_raw_first(c, s.subrange(i + 1, k));
    assert(seq![c] + s.subrange(i + 1, k) =~= s.subrange(i, k));
    if let Ok((pieces, _)) = scan_word(s, k, start) {
        assert(one + (more + pieces) =~= (one + more) + pieces);
    }
}

proof fn lemma_scan_raw(s: Seq<char>, i: int, k: int, start: int)
    requires
        0 <= i <= k <= s.len(),
        forall|j: int| i <= j < k ==> is_inner(#[trigger] s[j]) && (s[j] == '~' ==> j != start),
    ensures
        scan_word(s, i, start) == prepend(raw_pieces(s.subrange(i, k)), scan_word(s, k, start)),
    decreases k - i,
{
    let rest = scan_word(s, k, start);
    if i == k {
        assert(raw_pieces(s.subrange(i, k)) =~= Seq::<Piece>::empty());
        if let Ok((pieces, _)) = rest {
            assert(Seq::<Piece>::empty() + pieces =~= pieces);
        }
    } else {
        assert(is_inner(s[i]));
        lemma_scan_raw(s, i + 1, k, start);
        lemma_scan_raw_step(s, i, k, start, s[i]);
    }
}

proof fn lemma_scan_end(s: Seq<char>, start: int)
    ensures
        reads(scan_word(s, s.len() as int, start), Seq::empty(), s.len() as int),
{
}

// ---------------------------------------------------------------------------
// Double quotes.

/// `text` with a backslash before each backslash, double quote, dollar sign and
/// backquote.
pub open spec fn with_backslashes(text: Seq<char>) -> Seq<char>
    decreases text.len(),
{
    if text.len() == 0 {
        Seq::empty()
    } else {
        let c = text[0];
        (if c == '\\' || c == '"' || c == '$' || c == '`' {
            seq!['\\', c]
        } else {
            seq![c]
        }) + with_backslashes(text.skip(1))
    }
}

/// One of the characters that a backslash escapes between double quotes.
spec fn needs_backslash(c: char) -> bool {
    c == '\\' || c == '"' || c == '$' || c == '`'
}

proof fn lemma_after_escaped(s: Seq<char>, i: int, text: Seq<char>, c: char, end: Seq<char>)
    requires
        0 <= i <= s.len(),
        text.len() > 0,
        c == text[0],
        s.skip(i) == with_backslashes(text) + end,
    ensures
        needs_backslash(c) ==> i + 2 <= s.len() && s[i] == '\\' && s[i + 1] == c && s.skip(i + 2)
            == with_backslashes(text.skip(1)) + end,
        !needs_backslash(c) ==> i + 1 <= s.len() && s[i] == c && s.skip(i + 1)
            == with_backslashes(text.skip(1)) + end,
{
    let rest = s.skip(i);
    let more = with_backslashes(text.skip(1));
    let first = if needs_backslash(c) {
        seq!['\\', c]
    } else {
        seq![c]
    };
    assert(with_backslashes(text) == first + more);
    assert(rest =~= first + (more + end));
    let step = first.len() as int;
    assert(rest.len() >= step);
    assert(s.skip(i + step) =~= rest.skip(step));
    assert(rest.skip(step) =~= more + end);
    assert(rest[0] == s[i]);
    if needs_backslash(c) {
        assert(rest[1] == s[i + 1]);
    }
}

proof fn lemma_scan_escaped_step(s: Seq<char>, i: int, c: char, tail: Seq<char>)
    requires
        0 <= i < s.len(),
        needs_backslash(c) ==> i + 2 <= s.len() && s[i] == '\\' && s[i + 1] == c && reads(
            scan_double(s, i + 2),
            quoted_pieces(tail),
            s.len() as int,
        ),
        !needs_backslash(c) ==> s[i] == c && reads(
            scan_double(s, i + 1),
            quoted_pieces(tail),
            s.len() as int,
        ),
    ensures
        reads(scan_double(s, i), quoted_pieces(seq![c] + tail), s.len() as int),
{
    lemma_quoted_first(c, tail);
    let one = seq![Piece::Quoted(c)];
    if needs_backslash(c) {
        assert(scan_double(s, i) == prepend(one, scan_double(s, i + 2)));
    } else {
        assert(scan_double(s, i) == prepend(one, scan_double(s, i + 1)));
    }
}

proof fn lemma_scan_escaped(s: Seq<char>, i: int, text: Seq<char>)
    requires
        0 <= i <= s.len(),
        s.skip(i) == with_backslashes(text) + seq!['"'],
    ensures
        reads(scan_double(s, i), quoted_pieces(text), s.len() as int),
    decreases text.len(),
{
    let rest = s.skip(i);
    if text.len() == 0 {
        assert(rest =~= seq!['"']);
        assert(rest[0] == s[i]);
        assert(quoted_pieces(text) =~= Seq::<Piece>::empty());
    } else {
        let tail = text.skip(1);
        let step: int = if needs_backslash(text[0]) {
            2
        } else {
            1
        };
        lemma_after_escaped(s, i, text, text[0], seq!['"']);
        lemma_scan_escaped(s, i + step, tail);
        lemma_scan_escaped_step(s, i, text[0], tail);
        assert(seq![text[0]] + tail =~= text);
    }
}

/// Double quotes keep every text: with a backslash before each backslash,
/// double quote, dollar sign and backquote of it, what stands between them is
/// one word with that text, quoted.
pub proof fn law_double_quotes_round_trip(text: Seq<char>)
    requires
        text.len() > 0,
    ensures
        is_word(seq!['"'] + with_backslashes(text) + seq!['"'], seq![PartView::QLit(text)]),
{
    let s = seq!['"'] + with_backslashes(text) + seq!['"'];
    let n = s.len() as int;
    assert(s.skip(1) =~= with_backslashes(text) + seq!['"']);
    lemma_scan_escaped(s, 1, text);
    lemma_scan_end(s, 0);
    let pieces = quoted_pieces(text);
    assert(pieces + Seq::<Piece>::empty() =~= pieces);
    assert(s[0] == '"');
    lemma_one_word(s, pieces);
    lemma_coalesce_quoted(text);
}

/// A backslash between double quotes stands for itself before any other
/// character: a text without double quotes and dollar signs, whose backslashes
/// stand before none of the four characters that they escape, stays as it is.
pub proof fn law_double_quotes_keep_other_backslashes(text: Seq<char>)
    requires
        text.len() > 0,
        !text.contains('"'),
        !text.contains('$'),
        forall|i: int|
            0 <= i < text.len() && #[trigger] text[i] == '\\' ==> i + 1 < text.len() && text[i + 1]
                != '\\' && text[i + 1] != '`',
    ensures
        is_word(seq!['"'] + text + seq!['"'], seq![PartView::QLit(text)]),
{
    let s = seq!['"'] + text + seq!['"'];
    lemma_scan_plain_double(s, 1, text, 0);
    lemma_scan_end(s, 0);
    let pieces = quoted_pieces(text);
    assert(text.skip(0) =~= text);
    assert(pieces + Seq::<Piece>::empty() =~= pieces);
    assert(s[0] == '"');
    lemma_one_word(s, pieces);
    lemma_coalesce_quoted(text);
}

proof fn lemma_plain_double_step(s: Seq<char>, i: int, c: char, tail: Seq<char>)
    requires
        0 <= i,
        i + 1 < s.len(),
        s[i] == c,
        c != '"',
        c != '$',
        c == '\\' ==> !needs_backslash(s[i + 1]),
        reads(scan_double(s, i + 1), quoted_pieces(tail), s.len() as int),
    ensures
        reads(scan_double(s, i), quoted_pieces(seq![c] + tail), s.len() as int),
{
    lemma_quoted_first(c, tail);
    assert(scan_double(s, i) == prepend(seq![Piece::Quoted(c)], scan_double(s, i + 1)));
}

proof fn lemma_scan_plain_double(s: Seq<char>, i: int, text: Seq<char>, k: int)
    requires
        s == seq!['"'] + text + seq!['"'],
        i == k + 1,
        0 <= k <= text.len(),
        !text.contains('"'),
        !text.contains('$'),
        forall|i: int|
            0 <= i < text.len() && #[trigger] text[i] == '\\' ==> i + 1 < text.len() && text[i + 1]
                != '\\' && text[i + 1] != '`',
    ensures
        reads(scan_double(s, i), quoted_pieces(text.skip(k)), s.len() as int),
    decreases text.len() - k,
{
    if k == text.len() {
        assert(s[i] == '"');
        assert(quoted_pieces(text.skip(k)) =~= Seq::<Piece>::empty());
    } else {
        assert(s[i] == text[k]);
        assert(text.contains(text[k]));
        if text[k] == '\\' {
            assert(s[i + 1] == text[k + 1]);
            assert(text.contains(text[k + 1]));
        }
        lemma_scan_plain_double(s, i + 1, text, k + 1);
        lemma_plain_double_step(s, i, text[k], text.skip(k + 1));
        assert(seq![text[k]] + text.skip(k + 1) =~= text.skip(k));
    }
}

// ---------------------------------------------------------------------------
// Backslashes.

/// `text` with a backslash before each of its characters.
pub open spec fn all_escaped(text: Seq<char>) -> Seq<char> {
    Seq::new(
        2 * text.len(),
        |k: int|
            if k % 2 == 0 {
                '\\'
            } else {
                text[k / 2]
            },
    )
}

proof fn lemma_scan_all_escaped_step(s: Seq<char>, text: Seq<char>, k: int, c: char)
    requires
        s == all_escaped(text),
        0 <= k < text.len(),
        c == text[k],
        reads(scan_word(s, 2 * (k + 1), 0), raw_pieces(text.skip(k + 1)), s.len() as int),
    ensures
        reads(scan_word(s, 2 * k, 0), raw_pieces(text.skip(k)), s.len() as int),
{
    assert(s[2 * k] == '\\');
    assert(s[2 * k + 1] == c);
    lemma_raw_first(c, text.skip(k + 1));
    assert(seq![c] + text.skip(k + 1) =~= text.skip(k));
    assert(scan_word(s, 2 * k, 0) == prepend(seq![Piece::Raw(c)], scan_word(s, 2 * (k + 1), 0)));
}

proof fn lemma_scan_all_escaped(s: Seq<char>, text: Seq<char>, k: int)
    requires
        s == all_escaped(text),
        0 <= k <= text.len(),
    ensures
        reads(scan_word(s, 2 * k, 0), raw_pieces(text.skip(k)), s.len() as int),
    decreases text.len() - k,
{
    if k == text.len() {
        assert(raw_pieces(text.skip(k)) =~= Seq::<Piece>::empty());
    } else {
        lemma_scan_all_escaped(s, text, k + 1);
        lemma_scan_all_escaped_step(s, text, k, text[k]);
    }
}

/// A backslash outside quotes makes any character stand for itself.
pub proof fn law_backslash_escapes_any_character(text: Seq<char>)
    requires
        text.len() > 0,
    ensures
        is_word(all_escaped(text), seq![PartView::Lit(text)]),
{
    let s = all_escaped(text);
    assert(s[0] == '\\');
    lemma_scan_all_escaped(s, text, 0);
    assert(text.skip(0) =~= text);
    lemma_one_word(s, raw_pieces(text));
    lemma_coalesce_raw(text);
}

// ---------------------------------------------------------------------------
// Parts of a word.

/// A literal, if it holds anything.
pub open spec fn literal(text: Seq<char>) -> Seq<PartView> {
    if text.len() == 0 {
        Seq::empty()
    } else {
        seq![PartView::Lit(text)]
    }
}

/// Every character of the text stands for itself in a word.
pub open spec fn all_plain(text: Seq<char>) -> bool {
    forall|k: int| 0 <= k < text.len() ==> is_plain(#[trigger] text[k])
}

/// The text can go on after the name of a variable.
pub open spec fn ends_name(rest: Seq<char>) -> bool {
    rest.len() > 0 ==> !is_name_char(rest[0])
}

/// The name of a variable: letters, digits and `_`, no digit first.
pub open spec fn is_name(name: Seq<char>) -> bool {
    &&& name.len() > 0
    &&& !is_digit_char(name[0])
    &&& forall|k: int| 0 <= k < name.len() ==> is_name_char(#[trigger] name[k])
}

proof fn lemma_name_end_at(s: Seq<char>, i: int, k: int)
    requires
        0 <= i <= k <= s.len(),
        forall|j: int| i <= j < k ==> is_name_char(#[trigger] s[j]),
        k < s.len() ==> !is_name_char(s[k]),
    ensures
        name_end(s, i) == k,
    decreases k - i,
{
    if i < k {
        assert(is_name_char(s[i]));
        lemma_name_end_at(s, i + 1, k);
    }
}

/// The scan of `head` + (what `whole` came from) + `rest`, where plain text
/// stands around it.
proof fn lemma_around(
    s: Seq<char>,
    head: Seq<char>,
    i: int,
    k: int,
    rest: Seq<char>,
    middle: Seq<Piece>,
)
    requires
        0 < i < k || (i == 0 && k > 0),
        k <= s.len(),
        s.take(i) == head,
        s.skip(k) == rest,
        all_plain(head),
        all_plain(rest),
        i == 0 ==> !is_white_space(s[0]) && !is_operator_char(s[0]) && s[0] != '2',
        middle.len() > 0,
        i > 0 ==> s[i] != '>',
        scan_word(s, i, 0) == prepend(middle, scan_word(s, k, 0)),
        head.len() > 0 ==> !(middle[0] is Raw),
        rest.len() > 0 ==> !(middle.last() is Raw),
    ensures
        is_word(s, literal(head) + coalesce(middle) + literal(rest)),
{
    let n = s.len() as int;
    assert forall|j: int| 0 <= j < i implies is_inner(#[trigger] s[j]) && (s[j] == '~' ==> j != 0)
        by {
        assert(s.take(i)[j] == head[j]);
        assert(is_plain(head[j]));
    }
    assert forall|j: int| k <= j < n implies is_inner(#[trigger] s[j]) && (s[j] == '~' ==> j != 0)
        by {
        assert(s.skip(k)[j - k] == rest[j - k]);
        assert(is_plain(rest[j - k]));
    }
    lemma_scan_raw(s, 0, i, 0);
    lemma_scan_raw(s, k, n, 0);
    lemma_scan_end(s, 0);
    assert(s.subrange(0, i) =~= head);
    assert(s.subrange(k, n) =~= rest);
    let a = raw_pieces(head);
    let b = raw_pieces(rest);
    assert(b + Seq::<Piece>::empty() =~= b);
    let all = a + (middle + b);
    assert(reads(scan_word(s, 0, 0), all, n));
    if i > 0 {
        assert(is_plain(head[0]));
        assert(s[0] == head[0]);
        assert(!at(s, 1, '>')) by {
            if i > 1 {
                assert(is_plain(head[1]));
                assert(s[1] == head[1]);
            }
        }
    }
    lemma_one_word(s, all);
    lemma_pieces_ends(head);
    lemma_pieces_ends(rest);
    lemma_coalesce_apart(middle, b);
    if head.len() > 0 {
        assert((middle + b)[0] == middle[0]);
        lemma_coalesce_raw(head);
    } else {
        assert(a =~= Seq::<Piece>::empty());
        assert(coalesce(a) =~= Seq::<PartView>::empty());
    }
    lemma_coalesce_apart(a, middle + b);
    if rest.len() > 0 {
        lemma_coalesce_raw(rest);
    } else {
        assert(b =~= Seq::<Piece>::empty());
        assert(coalesce(b) =~= Seq::<PartView>::empty());
    }
    assert(coalesce(all) =~= literal(head) + coalesce(middle) + literal(rest));
}

proof fn lemma_whole(part: PartView)
    ensures
        coalesce(seq![Piece::Whole(part)]) == seq![part],
{
    let all = seq![Piece::Whole(part)];
    assert(all.drop_last() =~= Seq::<Piece>::empty());
    assert(coalesce(all.drop_last()) == Seq::<PartView>::empty());
    assert(coalesce(all) =~= seq![part]);
}

/// `$NAME` is a reference to the variable of the longest name that stands
/// there, with the plain text around it left as it is.
pub proof fn law_variables_in_a_word(head: Seq<char>, name: Seq<char>, rest: Seq<char>)
    requires
        all_plain(head),
        is_name(name),
        all_plain(rest),
        ends_name(rest),
    ensures
        is_word(
            head + seq!['$'] + name + rest,
            literal(head) + seq![PartView::Var(name)] + literal(rest),
        ),
{
    let s = head + seq!['$'] + name + rest;
    let i = head.len() as int;
    let k = i + 1 + name.len();
    assert(s[i] == '$');
    assert(s[i + 1] == name[0]);
    assert forall|j: int| i + 1 <= j < k implies is_name_char(#[trigger] s[j]) by {
        assert(s[j] == name[j - i - 1]);
    }
    if k < s.len() {
        assert(s[k] == rest[0]);
    }
    assert(is_name_char(name[0]));
    lemma_name_end_at(s, i + 1, k);
    assert(s.subrange(i + 1, k) =~= name);
    let middle = seq![Piece::Whole(PartView::Var(name))];
    assert(var_at(s, i + 1) == (Some(name), k));
    assert(scan_word(s, i, 0) == prepend(middle, scan_word(s, k, 0)));
    assert(s.take(i) =~= head);
    assert(s.skip(k) =~= rest);
    lemma_around(s, head, i, k, rest, middle);
    lemma_whole(PartView::Var(name));
}

/// `$?` is a reference to the last status, whatever plain text follows it.
pub proof fn law_status_in_a_word(head: Seq<char>, rest: Seq<char>)
    requires
        all_plain(head),
        all_plain(rest),
    ensures
        is_word(
            head + seq!['$', '?'] + rest,
            literal(head) + seq![PartView::Var(seq!['?'])] + literal(rest),
        ),
{
    let s = head + seq!['$', '?'] + rest;
    let i = head.len() as int;
    assert(s[i] == '$');
    assert(s[i + 1] == '?');
    let middle = seq![Piece::Whole(PartView::Var(seq!['?']))];
    assert(scan_word(s, i, 0) == prepend(middle, scan_word(s, i + 2, 0)));
    assert(s.take(i) =~= head);
    assert(s.skip(i + 2) =~= rest);
    lemma_around(s, head, i, i + 2, rest, middle);
    lemma_whole(PartView::Var(seq!['?']));
}

/// Single quotes inside a word quote their text and nothing around it.
pub proof fn law_quotes_in_a_word(head: Seq<char>, text: Seq<char>, rest: Seq<char>)
    requires
        all_plain(head),
        text.len() > 0,
        !text.contains('\''),
        all_plain(rest),
    ensures
        is_word(
            head + seq!['\''] + text + seq!['\''] + rest,
            literal(head) + seq![PartView::QLit(text)] + literal(rest),
        ),
{
    let s = head + seq!['\''] + text + seq!['\''] + rest;
    let i = head.len() as int;
    let k = i + 1 + text.len();
    assert(s[i] == '\'');
    assert(s[k] == '\'');
    assert forall|j: int| i + 1 <= j < k implies s[j] != '\'' by {
        assert(s[j] == text[j - i - 1]);
        assert(text.contains(text[j - i - 1]));
    }
    lemma_find_char(s, i + 1, '\'');
    lemma_quoted_run(s, i + 1, k);
    assert(s.subrange(i + 1, k) =~= text);
    let middle = quoted_pieces(text);
    lemma_pieces_ends(text);
    assert(scan_word(s, i, 0) == prepend(middle, scan_word(s, k + 1, 0)));
    assert(s.take(i) =~= head);
    assert(s.skip(k + 1) =~= rest);
    lemma_around(s, head, i, k + 1, rest, middle);
    lemma_coalesce_quoted(text);
}

/// `~` is the home directory at the start of a word, and an ordinary character
/// after it.
pub proof fn law_tilde_at_the_start(head: Seq<char>, rest: Seq<char>)
    requires
        all_plain(head),
        all_plain(rest),
    ensures
        is_word(seq!['~'] + rest, seq![PartView::Tilde] + literal(rest)),
        head.len() > 0 ==> is_word(
            head + seq!['~'] + rest,
            seq![PartView::Lit(head + seq!['~'] + rest)],
        ),
{
    let s = seq!['~'] + rest;
    let none = Seq::<char>::empty();
    let middle = seq![Piece::Whole(PartView::Tilde)];
    assert(s[0] == '~');
    assert(scan_word(s, 0, 0) == prepend(middle, scan_word(s, 1, 0)));
    assert(s.take(0) =~= none);
    assert(s.skip(1) =~= rest);
    lemma_around(s, none, 0, 1, rest, middle);
    lemma_whole(PartView::Tilde);
    assert(literal(none) + seq![PartView::Tilde] =~= seq![PartView::Tilde]);
    if head.len() > 0 {
        let t = head + seq!['~'] + rest;
        let n = t.len() as int;
        assert forall|j: int| 0 <= j < n implies is_inner(#[trigger] t[j]) && (t[j] == '~' ==> j
            != 0) by {
            if j < head.len() {
                assert(t[j] == head[j]);
                assert(is_plain(head[j]));
            } else if j > head.len() {
                assert(t[j] == rest[j - head.len() - 1]);
                assert(is_plain(rest[j - head.len() - 1]));
            }
        }
        assert(is_plain(head[0]));
        assert(t[0] == head[0]);
        assert(!at(t, 1, '>')) by {
            if n > 1 {
                assert(is_inner(t[1]));
            }
        }
        lemma_scan_raw(t, 0, n, 0);
        lemma_scan_end(t, 0);
        assert(t.subrange(0, n) =~= t);
        assert(raw_pieces(t) + Seq::<Piece>::empty() =~= raw_pieces(t));
        lemma_one_word(t, raw_pieces(t));
        lemma_coalesce_raw(t);
    }
}

/// `"$NAME"` is a quoted reference.
pub proof fn law_quoted_variables(name: Seq<char>)
    requires
        is_name(name),
    ensures
        is_word(seq!['"', '$'] + name + seq!['"'], seq![PartView::QVar(name)]),
        is_word(seq!['"', '$', '?', '"'], seq![PartView::QVar(seq!['?'])]),
{
    let s = seq!['"', '$'] + name + seq!['"'];
    let k = 2 + name.len() as int;
    assert(s[2] == name[0]);
    assert forall|j: int| 2 <= j < k implies is_name_char(#[trigger] s[j]) by {
        assert(s[j] == name[j - 2]);
    }
    assert(s[k] == '"');
    assert(is_name_char(name[0]));
    lemma_name_end_at(s, 2, k);
    assert(s.subrange(2, k) =~= name);
    assert(var_at(s, 2) == (Some(name), k));
    let middle = seq![Piece::Whole(PartView::QVar(name))];
    assert(reads(scan_double(s, k), Seq::empty(), k + 1));
    assert(middle + Seq::<Piece>::empty() =~= middle);
    assert(reads(scan_double(s, 1), middle, k + 1));
    lemma_scan_end(s, 0);
    assert(reads(scan_word(s, 0, 0), middle, k + 1));
    lemma_one_word(s, middle);
    lemma_whole(PartView::QVar(name));
    let t = seq!['"', '$', '?', '"'];
    let inner = seq![Piece::Whole(PartView::QVar(seq!['?']))];
    assert(reads(scan_double(t, 3), Seq::empty(), 4));
    assert(inner + Seq::<Piece>::empty() =~= inner);
    assert(var_at(t, 2) == (Some(seq!['?']), 3int));
    assert(reads(scan_double(t, 1), inner, 4));
    lemma_scan_end(t, 0);
    assert(reads(scan_word(t, 0, 0), inner, 4));
    lemma_one_word(t, inner);
    lemma_whole(PartView::QVar(seq!['?']));
}

/// How many parentheses are open after the first `i` characters of a text.
pub open spec fn open_parens(text: Seq<char>, i: int) -> int
    decreases i,
{
    if i <= 0 {
        0
    } else if text[i - 1] == '(' {
        open_parens(text, i - 1) + 1
    } else if text[i - 1] == ')' {
        open_parens(text, i - 1) - 1
    } else {
        open_parens(text, i - 1)
    }
}

/// The parentheses of the text are balanced, and it has no quotes.
pub open spec fn is_balanced(text: Seq<char>) -> bool {
    &&& !text.contains('\'')
    &&& !text.contains('"')
    &&& forall|i: int| 0 <= i <= text.len() ==> #[trigger] open_parens(text, i) >= 0
    &&& open_parens(text, text.len() as int) == 0
}

proof fn lemma_close_balanced(s: Seq<char>, off: int, text: Seq<char>, i: int)
    requires
        0 <= off,
        off + text.len() <= s.len(),
        s.subrange(off, off + text.len()) == text,
        !text.contains('\''),
        !text.contains('"'),
        forall|i: int| 0 <= i <= text.len() ==> #[trigger] open_parens(text, i) >= 0,
        0 <= i <= text.len(),
    ensures
        close_paren(s, off + i, (1 + open_parens(text, i)) as nat) == close_paren(
            s,
            off + text.len(),
            (1 + open_parens(text, text.len() as int)) as nat,
        ),
    decreases text.len() - i,
{
    if i < text.len() {
        assert(s.subrange(off, off + text.len())[i] == s[off + i]);
        assert(text.contains(text[i]));
        assert(open_parens(text, i) >= 0);
        assert(open_parens(text, i + 1) >= 0);
        lemma_close_balanced(s, off, text, i + 1);
    }
}

/// `$(...)` takes in the command line up to the parenthesis that closes it,
/// those inside in pairs; between double quotes its output is quoted.
pub proof fn law_substitutions_in_a_word(head: Seq<char>, body: Seq<char>, rest: Seq<char>)
    requires
        all_plain(head),
        is_balanced(body),
        all_plain(rest),
    ensures
        is_word(
            head + seq!['$', '('] + body + seq![')'] + rest,
            literal(head) + seq![PartView::Subst(body)] + literal(rest),
        ),
        is_word(
            seq!['"', '$', '('] + body + seq![')', '"'],
            seq![PartView::QSubst(body)],
        ),
{
    let s = head + seq!['$', '('] + body + seq![')'] + rest;
    let i = head.len() as int;
    let k = i + 2 + body.len();
    assert(s[i] == '$');
    assert(s[i + 1] == '(');
    assert(s[k] == ')');
    assert(s.subrange(i + 2, k) =~= body);
    lemma_close_balanced(s, i + 2, body, 0);
    assert(open_parens(body, 0) == 0);
    assert(close_paren(s, i + 2, 1) == Ok::<int, ParseError>(k));
    let middle = seq![Piece::Whole(PartView::Subst(body))];
    assert(scan_word(s, i, 0) == prepend(middle, scan_word(s, k + 1, 0)));
    assert(s.take(i) =~= head);
    assert(s.skip(k + 1) =~= rest);
    lemma_around(s, head, i, k + 1, rest, middle);
    lemma_whole(PartView::Subst(body));
    let t = seq!['"', '$', '('] + body + seq![')', '"'];
    let m = 3 + body.len() as int;
    assert(t[1] == '$' && t[2] == '(' && t[m] == ')' && t[m + 1] == '"');
    assert(t.subrange(3, m) =~= body);
    lemma_close_balanced(t, 3, body, 0);
    assert(close_paren(t, 3, 1) == Ok::<int, ParseError>(m));
    let inner = seq![Piece::Whole(PartView::QSubst(body))];
    assert(reads(scan_double(t, m + 1), Seq::empty(), m + 2));
    assert(inner + Seq::<Piece>::empty() =~= inner);
    assert(reads(scan_double(t, 1), inner, m + 2));
    lemma_scan_end(t, 0);
    assert(reads(scan_word(t, 0, 0), inner, m + 2));
    lemma_one_word(t, inner);
    lemma_whole(PartView::QSubst(body));
}

/// A quoted span inside `$(...)` is taken over as it is: parentheses in it
/// close nothing.
#[verifier::rlimit(40)]
pub proof fn law_quotes_hide_parentheses(
    body: Seq<char>,
    quote: char,
    text: Seq<char>,
    rest: Seq<char>,
)
    requires
        is_balanced(body),
        quote == '\'' || quote == '"',
        !text.contains(quote),
        is_balanced(rest),
    ensures
        ({
            let inner = body + seq![quote] + text + seq![quote] + rest;
            is_word(seq!['$', '('] + inner + seq![')'], seq![PartView::Subst(inner)])
        }),
{
    let inner = body + seq![quote] + text + seq![quote] + rest;
    let s = seq!['$', '('] + inner + seq![')'];
    let a = 2 + body.len() as int;
    let b = a + 1 + text.len();
    let k = 2 + inner.len() as int;
    assert(s.subrange(2, a) =~= body);
    assert(s[a] == quote);
    assert(s[b] == quote);
    assert forall|j: int| a + 1 <= j < b implies s[j] != quote by {
        assert(s[j] == text[j - a - 1]);
        assert(text.contains(text[j - a - 1]));
    }
    assert(s.subrange(b + 1, k) =~= rest);
    assert(s[k] == ')');
    lemma_close_balanced(s, 2, body, 0);
    assert(open_parens(body, 0) == 0);
    lemma_find_char(s, a + 1, quote);
    lemma_close_balanced(s, b + 1, rest, 0);
    assert(open_parens(rest, 0) == 0);
    assert(close_paren(s, a, 1) == close_paren(s, b + 1, 1));
    assert(close_paren(s, 2, 1) == Ok::<int, ParseError>(k));
    assert(s.subrange(2, k) =~= inner);
    let middle = seq![Piece::Whole(PartView::Subst(inner))];
    let none = Seq::<char>::empty();
    assert(s[0] == '$' && s[1] == '(');
    assert(scan_word(s, 0, 0) == prepend(middle, scan_word(s, k + 1, 0)));
    assert(s.take(0) =~= none);
    assert(s.skip(k + 1) =~= none);
    lemma_around(s, none, 0, k + 1, none, middle);
    lemma_whole(PartView::Subst(inner));
    assert(literal(none) + seq![PartView::Subst(inner)] + literal(none) =~= seq![
        PartView::Subst(inner),
    ]);
}

// ---------------------------------------------------------------------------
// Lines that end too early.

/// What is opened has to be closed: a line with an open quote, an open
/// substitution or a backslash at its end does not lex, and tells which it is.
pub proof fn law_open_ends_are_errors(head: Seq<char>, text: Seq<char>, body: Seq<char>)
    requires
        all_plain(head),
        head.len() > 0,
        !text.contains('\''),
        is_balanced(body),
    ensures
        lexed(head + seq!['\\']) == Err::<Seq<SpannedView>, ParseError>(
            ParseError::TrailingBackslash,
        ),
        lexed(head + seq!['\''] + text) == Err::<Seq<SpannedView>, ParseError>(
            ParseError::UnterminatedQuote('\''),
        ),
        lexed(head + seq!['"'] + with_backslashes(text)) == Err::<Seq<SpannedView>, ParseError>(
            ParseError::UnterminatedQuote('"'),
        ),
        lexed(head + seq!['$', '('] + body) == Err::<Seq<SpannedView>, ParseError>(
            ParseError::UnterminatedSubst,
        ),
{
    let n = head.len() as int;
    let a = head + seq!['\\'];
    lemma_head_scans(a, head);
    let b = head + seq!['\''] + text;
    lemma_head_scans(b, head);
    lemma_find_char(b, n + 1, '\'');
    assert(find_char(b, n + 1, '\'') is None) by {
        if let Some(k) = find_char(b, n + 1, '\'') {
            assert(b[k] == text[k - n - 1]);
            assert(text.contains(text[k - n - 1]));
        }
    }
    let c = head + seq!['"'] + with_backslashes(text);
    lemma_head_scans(c, head);
    assert(c.skip(n + 1) =~= with_backslashes(text));
    lemma_open_double(c, n + 1, text);
    let d = head + seq!['$', '('] + body;
    lemma_head_scans(d, head);
    assert(d[n] == '$' && d[n + 1] == '(');
    assert(d.subrange(n + 2, n + 2 + body.len()) =~= body);
    lemma_close_balanced(d, n + 2, body, 0);
    assert(open_parens(body, 0) == 0);
}

proof fn lemma_head_scans(s: Seq<char>, head: Seq<char>)
    requires
        all_plain(head),
        head.len() > 0,
        head.len() < s.len(),
        forall|j: int| 0 <= j < head.len() ==> #[trigger] s[j] == head[j],
        s[head.len() as int] != '>',
    ensures
        scan_word(s, head.len() as int, 0) matches Err(e) ==> lexed(s) == Err::<
            Seq<SpannedView>,
            ParseError,
        >(e),
{
    assert forall|j: int| 0 <= j < head.len() implies is_inner(#[trigger] s[j]) && (s[j] == '~'
        ==> j != 0) by {
        assert(is_plain(head[j]));
    }
    lemma_scan_raw(s, 0, head.len() as int, 0);
    assert(is_plain(head[0]));
    assert(s[0] == head[0]);
    assert(!at(s, 1, '>')) by {
        if head.len() > 1 {
            assert(is_plain(head[1]));
            assert(s[1] == head[1]);
        }
    }
}

proof fn lemma_open_double(s: Seq<char>, i: int, text: Seq<char>)
    requires
        0 <= i <= s.len(),
        s.skip(i) == with_backslashes(text),
    ensures
        scan_double(s, i) == Err::<(Seq<Piece>, int), ParseError>(
            ParseError::UnterminatedQuote('"'),
        ),
    decreases text.len(),
{
    if text.len() == 0 {
        assert(s.skip(i).len() == 0);
    } else {
        let none = Seq::<char>::empty();
        assert(with_backslashes(text) + none =~= with_backslashes(text));
        lemma_after_escaped(s, i, text, text[0], none);
        assert(with_backslashes(text.skip(1)) + none =~= with_backslashes(text.skip(1)));
        if needs_backslash(text[0]) {
            lemma_open_double(s, i + 2, text.skip(1));
        } else {
            lemma_open_double(s, i + 1, text.skip(1));
        }
    }
}

// ---------------------------------------------------------------------------
// White space and operators.

/// White space separates: the tokens of two texts with white space between
/// them are those of the first and then those of the second.
pub proof fn law_white_space_separates(a: Seq<char>, c: char, b: Seq<char>)
    requires
        lexed(a) is Ok,
        is_white_space(c),
    ensures
        lexed(a + seq![c] + b) == match lexed(b) {
            Ok(more) => Ok::<Seq<SpannedView>, ParseError>(
                lexed(a)->Ok_0 + moved_tokens(more, a.len() as int + 1),
            ),
            Err(e) => Err(e),
        },
{
    let u = a + seq![c] + b;
    let n = a.len() as int;
    assert(u[n] == c);
    assert(text_goes_on(a, u));
    assert(stands_at(b, u, n + 1));
    lemma_keep_tokens(a, u, 0);
    lemma_move_tokens(b, u, n + 1, 0);
    assert(tokens_from(u, n) == tokens_from(u, n + 1));
}

/// The operator is written `text`.
pub open spec fn writes_operator(text: Seq<char>, token: TokenView) -> bool {
    match token {
        TokenView::Pipe => text == seq!['|'],
        TokenView::Or => text == seq!['|', '|'],
        TokenView::Semi => text == seq![';'],
        TokenView::Amp => text == seq!['&'],
        TokenView::And => text == seq!['&', '&'],
        TokenView::In => text == seq!['<'],
        TokenView::Out { append } => text == if append {
            seq!['>', '>']
        } else {
            seq!['>']
        },
        TokenView::ErrOut { append } => text == if append {
            seq!['2', '>', '>']
        } else {
            seq!['2', '>']
        },
        TokenView::Word(_) => false,
    }
}

/// An operator between blanks is one token, with the tokens before it and after
/// it as they are.
pub proof fn law_operators_between_blanks(
    a: Seq<char>,
    text: Seq<char>,
    token: TokenView,
    b: Seq<char>,
)
    requires
        lexed(a) is Ok,
        lexed(b) is Ok,
        writes_operator(text, token),
    ensures
        ({
            let n = a.len() as int;
            let m = text.len() as int;
            lexed(a + seq![' '] + text + seq![' '] + b) == Ok::<Seq<SpannedView>, ParseError>(
                lexed(a)->Ok_0 + seq![SpannedView { start: n + 1, end: n + 1 + m, token }]
                    + moved_tokens(lexed(b)->Ok_0, n + m + 2),
            )
        }),
{
    let n = a.len() as int;
    let m = text.len() as int;
    let none = Seq::<SpannedView>::empty();
    let here = SpannedView { start: 0, end: m, token };
    assert(token_at(text, 0) == Ok::<(TokenView, int), ParseError>((token, m)));
    assert(tokens_from(text, m) == Ok::<Seq<SpannedView>, ParseError>(none));
    assert(seq![here] + none =~= seq![here]);
    assert(!is_white_space(text[0]));
    assert(lexed(text) == Ok::<Seq<SpannedView>, ParseError>(seq![here]));
    let tail = text + seq![' '] + b;
    law_white_space_separates(text, ' ', b);
    law_white_space_separates(a, ' ', tail);
    assert(a + seq![' '] + text + seq![' '] + b =~= a + seq![' '] + tail);
    let x = lexed(a)->Ok_0;
    let y = lexed(b)->Ok_0;
    assert(x + moved_tokens(seq![here] + moved_tokens(y, m + 1), n + 1) =~= x + seq![
        SpannedView { start: n + 1, end: n + 1 + m, token },
    ] + moved_tokens(y, n + m + 2));
}

/// No blanks are needed around operators: a plain word ends at the operator
/// character that follows it. A `2` alone before `>` belongs to the operator.
pub proof fn law_operators_end_words(word: Seq<char>, rest: Seq<char>)
    requires
        word.len() > 0,
        all_plain(word),
        rest.len() > 0,
        rest[0] == '|' || rest[0] == ';' || rest[0] == '&' || rest[0] == '<' || rest[0] == '>',
        !(word == seq!['2'] && rest[0] == '>'),
    ensures
        lexed(word + rest) == match lexed(rest) {
            Ok(more) => Ok::<Seq<SpannedView>, ParseError>(
                seq![
                    SpannedView {
                        start: 0,
                        end: word.len() as int,
                        token: TokenView::Word(seq![PartView::Lit(word)]),
                    },
                ] + moved_tokens(more, word.len() as int),
            ),
            Err(e) => Err(e),
        },
{
    let s = word + rest;
    let n = word.len() as int;
    assert(s[n] == rest[0]);
    assert forall|j: int| 0 <= j < n implies is_inner(#[trigger] s[j]) && (s[j] == '~' ==> j != 0)
        by {
        assert(s[j] == word[j]);
        assert(is_plain(word[j]));
    }
    lemma_scan_raw(s, 0, n, 0);
    assert(s.subrange(0, n) =~= word);
    assert(reads(scan_word(s, n, 0), Seq::empty(), n));
    assert(raw_pieces(word) + Seq::<Piece>::empty() =~= raw_pieces(word));
    lemma_coalesce_raw(word);
    assert(is_plain(word[0]));
    assert(s[0] == word[0]);
    assert(!(s[0] == '2' && at(s, 1, '>'))) by {
        if n > 1 {
            assert(is_plain(word[1]));
            assert(s[1] == word[1]);
        } else if s[0] == '2' {
            assert(word =~= seq!['2']);
        }
    }
    let here = SpannedView {
        start: 0,
        end: n,
        token: TokenView::Word(seq![PartView::Lit(word)]),
    };
    assert(token_at(s, 0) == Ok::<(TokenView, int), ParseError>((here.token, n)));
    assert(stands_at(rest, s, n));
    lemma_move_tokens(rest, s, n, 0);
}

// ---------------------------------------------------------------------------
// Mixed words.

proof fn lemma_raw_join_step(a: Seq<char>, head: Seq<char>, d: char)
    requires
        raw_pieces(a + head) == raw_pieces(a) + raw_pieces(head),
    ensures
        raw_pieces(a + head.push(d)) == raw_pieces(a) + raw_pieces(head.push(d)),
{
    lemma_raw_push(head, d);
    lemma_raw_push(a + head, d);
    assert((a + head).push(d) =~= a + head.push(d));
    let last = Piece::Raw(d);
    assert((raw_pieces(a) + raw_pieces(head)).push(last) =~= raw_pieces(a) + raw_pieces(head).push(
        last,
    ));
}

proof fn lemma_raw_join(a: Seq<char>, b: Seq<char>)
    ensures
        raw_pieces(a + b) == raw_pieces(a) + raw_pieces(b),
    decreases b.len(),
{
    if b.len() == 0 {
        assert(a + b =~= a);
        assert(raw_pieces(a) + raw_pieces(b) =~= raw_pieces(a));
    } else {
        lemma_raw_join(a, b.drop_last());
        lemma_raw_join_step(a, b.drop_last(), b.last());
        assert(b.drop_last().push(b.last()) =~= b);
    }
}

proof fn lemma_quoted_join_step(a: Seq<char>, head: Seq<char>, d: char)
    requires
        quoted_pieces(a + head) == quoted_pieces(a) + quoted_pieces(head),
    ensures
        quoted_pieces(a + head.push(d)) == quoted_pieces(a) + quoted_pieces(head.push(d)),
{
    lemma_quoted_push(head, d);
    lemma_quoted_push(a + head, d);
    assert((a + head).push(d) =~= a + head.push(d));
    let last = Piece::Quoted(d);
    assert((quoted_pieces(a) + quoted_pieces(head)).push(last) =~= quoted_pieces(a) + quoted_pieces(
        head,
    ).push(last));
}

proof fn lemma_quoted_join(a: Seq<char>, b: Seq<char>)
    ensures
        quoted_pieces(a + b) == quoted_pieces(a) + quoted_pieces(b),
    decreases b.len(),
{
    if b.len() == 0 {
        assert(a + b =~= a);
        assert(quoted_pieces(a) + quoted_pieces(b) =~= quoted_pieces(a));
    } else {
        lemma_quoted_join(a, b.drop_last());
        lemma_quoted_join_step(a, b.drop_last(), b.last());
        assert(b.drop_last().push(b.last()) =~= b);
    }
}

/// A quoted literal, if it holds anything.
pub open spec fn quoted_literal(text: Seq<char>) -> Seq<PartView> {
    if text.len() == 0 {
        Seq::empty()
    } else {
        seq![PartView::QLit(text)]
    }
}

proof fn lemma_quoted_literal(text: Seq<char>)
    ensures
        coalesce(quoted_pieces(text)) == quoted_literal(text),
{
    if text.len() > 0 {
        lemma_coalesce_quoted(text);
    } else {
        assert(quoted_pieces(text) =~= Seq::<Piece>::empty());
        assert(coalesce(quoted_pieces(text)) == Seq::<PartView>::empty());
    }
}

proof fn lemma_escaped_then_step(s: Seq<char>, i: int, c: char, tail: Seq<char>, k: int)
    requires
        0 <= i < s.len(),
        needs_backslash(c) ==> i + 2 <= s.len() && s[i] == '\\' && s[i + 1] == c && scan_double(
            s,
            i + 2,
        ) == prepend(quoted_pieces(tail), scan_double(s, k)),
        !needs_backslash(c) ==> s[i] == c && scan_double(s, i + 1) == prepend(
            quoted_pieces(tail),
            scan_double(s, k),
        ),
    ensures
        scan_double(s, i) == prepend(quoted_pieces(seq![c] + tail), scan_double(s, k)),
{
    lemma_quoted_first(c, tail);
    let one = seq![Piece::Quoted(c)];
    let more = quoted_pieces(tail);
    if needs_backslash(c) {
        assert(scan_double(s, i) == prepend(one, scan_double(s, i + 2)));
    } else {
        assert(scan_double(s, i) == prepend(one, scan_double(s, i + 1)));
    }
    if let Ok((pieces, _)) = scan_double(s, k) {
        assert(one + (more + pieces) =~= (one + more) + pieces);
    }
}

/// Escaped text between double quotes is read as quoted text, up to what stands
/// behind it.
proof fn lemma_escaped_then(s: Seq<char>, i: int, text: Seq<char>, k: int)
    requires
        0 <= i <= k <= s.len(),
        s.subrange(i, k) == with_backslashes(text),
    ensures
        scan_double(s, i) == prepend(quoted_pieces(text), scan_double(s, k)),
    decreases text.len(),
{
    let end = s.skip(k);
    assert(s.skip(i) =~= s.subrange(i, k) + end);
    if text.len() == 0 {
        assert(i == k);
        assert(quoted_pieces(text) =~= Seq::<Piece>::empty());
        if let Ok((pieces, _)) = scan_double(s, k) {
            assert(Seq::<Piece>::empty() + pieces =~= pieces);
        }
    } else {
        let tail = text.skip(1);
        let step: int = if needs_backslash(text[0]) {
            2
        } else {
            1
        };
        lemma_after_escaped(s, i, text, text[0], end);
        assert(with_backslashes(text).len() == step + with_backslashes(tail).len());
        assert(s.subrange(i + step, k) =~= with_backslashes(tail)) by {
            let rest = s.skip(i + step);
            assert(rest.take(k - i - step) =~= s.subrange(i + step, k));
            assert((with_backslashes(tail) + end).take(with_backslashes(tail).len() as int)
                =~= with_backslashes(tail));
        }
        lemma_escaped_then(s, i + step, tail, k);
        lemma_escaped_then_step(s, i, text[0], tail, k);
        assert(seq![text[0]] + tail =~= text);
    }
}

/// A word between double quotes: escaped text, then what `middle` is read from,
/// then escaped text again.
proof fn lemma_double_around(
    s: Seq<char>,
    a: Seq<char>,
    i: int,
    k: int,
    b: Seq<char>,
    middle: Seq<Piece>,
)
    requires
        1 <= i <= k < s.len(),
        s[0] == '"',
        s.last() == '"',
        s.subrange(1, i) == with_backslashes(a),
        s.subrange(k, s.len() - 1) == with_backslashes(b),
        scan_double(s, i) == prepend(middle, scan_double(s, k)),
        middle.len() > 0,
        a.len() > 0 ==> !(middle[0] is Quoted),
        b.len() > 0 ==> !(middle.last() is Quoted),
    ensures
        is_word(s, quoted_literal(a) + coalesce(middle) + quoted_literal(b)),
{
    let n = s.len() as int;
    lemma_escaped_then(s, 1, a, i);
    lemma_escaped_then(s, k, b, n - 1);
    assert(reads(scan_double(s, n - 1), Seq::empty(), n));
    let x = quoted_pieces(a);
    let y = quoted_pieces(b);
    assert(y + Seq::<Piece>::empty() =~= y);
    let all = x + (middle + y);
    assert(reads(scan_double(s, 1), all, n));
    lemma_scan_end(s, 0);
    assert(all + Seq::<Piece>::empty() =~= all);
    assert(reads(scan_word(s, 0, 0), all, n));
    lemma_one_word(s, all);
    lemma_pieces_ends(a);
    lemma_pieces_ends(b);
    lemma_coalesce_apart(middle, y);
    assert((middle + y)[0] == middle[0]);
    lemma_coalesce_apart(x, middle + y);
    lemma_quoted_literal(a);
    lemma_quoted_literal(b);
    assert(coalesce(all) =~= quoted_literal(a) + coalesce(middle) + quoted_literal(b));
}

/// Between double quotes variables and substitutions stand among text: the text
/// before and after each is quoted, and so is what it gives.
pub proof fn law_double_quotes_around_expansions(
    a: Seq<char>,
    name: Seq<char>,
    body: Seq<char>,
    b: Seq<char>,
)
    requires
        is_name(name),
        is_balanced(body),
    ensures
        ends_name(b) ==> is_word(
            seq!['"'] + with_backslashes(a) + seq!['$'] + name + with_backslashes(b) + seq!['"'],
            quoted_literal(a) + seq![PartView::QVar(name)] + quoted_literal(b),
        ),
        is_word(
            seq!['"'] + with_backslashes(a) + seq!['$', '?'] + with_backslashes(b) + seq!['"'],
            quoted_literal(a) + seq![PartView::QVar(seq!['?'])] + quoted_literal(b),
        ),
        is_word(
            seq!['"'] + with_backslashes(a) + seq!['$', '('] + body + seq![')'] + with_backslashes(b)
                + seq!['"'],
            quoted_literal(a) + seq![PartView::QSubst(body)] + quoted_literal(b),
        ),
{
    let i = 1 + with_backslashes(a).len() as int;
    if ends_name(b) {
        let s = seq!['"'] + with_backslashes(a) + seq!['$'] + name + with_backslashes(b) + seq!['"'];
        let k = i + 1 + name.len();
        assert(s[i] == '$');
        assert(s[i + 1] == name[0]);
        assert forall|j: int| i + 1 <= j < k implies is_name_char(#[trigger] s[j]) by {
            assert(s[j] == name[j - i - 1]);
        }
        assert(!is_name_char(s[k])) by {
            lemma_first_escaped(b);
            if b.len() > 0 {
                assert(s[k] == with_backslashes(b)[0]);
            } else {
                assert(with_backslashes(b).len() == 0);
                assert(s[k] == '"');
            }
        }
        assert(is_name_char(name[0]));
        lemma_name_end_at(s, i + 1, k);
        assert(s.subrange(i + 1, k) =~= name);
        assert(var_at(s, i + 1) == (Some(name), k));
        let middle = seq![Piece::Whole(PartView::QVar(name))];
        assert(scan_double(s, i) == prepend(middle, scan_double(s, k)));
        assert(s.subrange(1, i) =~= with_backslashes(a));
        assert(s.subrange(k, s.len() - 1) =~= with_backslashes(b));
        lemma_double_around(s, a, i, k, b, middle);
        lemma_whole(PartView::QVar(name));
    }
    let t = seq!['"'] + with_backslashes(a) + seq!['$', '?'] + with_backslashes(b) + seq!['"'];
    assert(t[i] == '$' && t[i + 1] == '?');
    let status = seq![Piece::Whole(PartView::QVar(seq!['?']))];
    assert(var_at(t, i + 1) == (Some(seq!['?']), i + 2));
    assert(scan_double(t, i) == prepend(status, scan_double(t, i + 2)));
    assert(t.subrange(1, i) =~= with_backslashes(a));
    assert(t.subrange(i + 2, t.len() - 1) =~= with_backslashes(b));
    lemma_double_around(t, a, i, i + 2, b, status);
    lemma_whole(PartView::QVar(seq!['?']));
    lemma_quoted_substitution(a, body, b);
}

proof fn lemma_first_escaped(b: Seq<char>)
    ensures
        b.len() > 0 ==> with_backslashes(b).len() > 0 && (with_backslashes(b)[0] == b[0]
            || with_backslashes(b)[0] == '\\'),
{
}

proof fn lemma_quoted_substitution(a: Seq<char>, body: Seq<char>, b: Seq<char>)
    requires
        is_balanced(body),
    ensures
        is_word(
            seq!['"'] + with_backslashes(a) + seq!['$', '('] + body + seq![')'] + with_backslashes(b)
                + seq!['"'],
            quoted_literal(a) + seq![PartView::QSubst(body)] + quoted_literal(b),
        ),
{
    let i = 1 + with_backslashes(a).len() as int;
    let s = seq!['"'] + with_backslashes(a) + seq!['$', '('] + body + seq![')'] + with_backslashes(b)
        + seq!['"'];
    let k = i + 2 + body.len();
    assert(s[i] == '$' && s[i + 1] == '(' && s[k] == ')');
    assert(s.subrange(i + 2, k) =~= body);
    lemma_close_balanced(s, i + 2, body, 0);
    assert(open_parens(body, 0) == 0);
    assert(close_paren(s, i + 2, 1) == Ok::<int, ParseError>(k));
    let middle = seq![Piece::Whole(PartView::QSubst(body))];
    assert(scan_double(s, i) == prepend(middle, scan_double(s, k + 1)));
    assert(s.subrange(1, i) =~= with_backslashes(a));
    assert(s.subrange(k + 1, s.len() - 1) =~= with_backslashes(b));
    lemma_double_around(s, a, i, k + 1, b, middle);
    lemma_whole(PartView::QSubst(body));
}

/// No variable, status or substitution starts with the text.
pub open spec fn names_nothing(rest: Seq<char>) -> bool {
    rest.len() > 0 ==> rest[0] != '?' && rest[0] != '(' && (is_digit_char(rest[0]) || !is_name_char(
        rest[0],
    ))
}

/// A `$` that names nothing stands for itself, in double quotes too; it starts a
/// literal of its own.
pub proof fn law_dollars_that_name_nothing(head: Seq<char>, rest: Seq<char>, a: Seq<char>, b: Seq<char>)
    requires
        all_plain(head),
        all_plain(rest),
        names_nothing(rest),
        names_nothing(b),
    ensures
        is_word(
            head + seq!['$'] + rest,
            literal(head) + seq![PartView::Lit(seq!['$'] + rest)],
        ),
        is_word(
            seq!['"'] + with_backslashes(a) + seq!['$'] + with_backslashes(b) + seq!['"'],
            quoted_literal(a) + seq![PartView::QLit(seq!['$'] + b)],
        ),
{
    let s = head + seq!['$'] + rest;
    let n = s.len() as int;
    let i = head.len() as int;
    let none = Seq::<char>::empty();
    let cut = seq![Piece::Cut];
    assert(coalesce(cut) =~= Seq::<PartView>::empty()) by {
        assert(cut.drop_last() =~= Seq::<Piece>::empty());
        assert(coalesce(cut.drop_last()) == Seq::<PartView>::empty());
    }
    assert(s[i] == '$');
    if rest.len() > 0 {
        assert(s[i + 1] == rest[0]);
    }
    assert forall|j: int| i + 1 <= j < n implies is_inner(#[trigger] s[j]) && (s[j] == '~' ==> j != 0)
        by {
        assert(s[j] == rest[j - i - 1]);
        assert(is_plain(rest[j - i - 1]));
    }
    lemma_scan_raw(s, i + 1, n, 0);
    assert(s.subrange(i + 1, n) =~= rest);
    assert(var_at(s, i + 1) == (None::<Seq<char>>, i + 1));
    let dollar = seq![Piece::Cut, Piece::Raw('$')];
    assert(scan_word(s, i, 0) == prepend(dollar, scan_word(s, i + 1, 0)));
    lemma_raw_first('$', rest);
    let run = raw_pieces(seq!['$'] + rest);
    let middle = cut + run;
    lemma_scan_end(s, 0);
    assert(dollar + raw_pieces(rest) =~= middle);
    assert(scan_word(s, i, 0) == prepend(middle, scan_word(s, n, 0))) by {
        assert(dollar + (raw_pieces(rest) + Seq::<Piece>::empty()) =~= middle
            + Seq::<Piece>::empty());
    }
    lemma_pieces_ends(seq!['$'] + rest);
    assert(s.take(i) =~= head);
    assert(s.skip(n) =~= none);
    assert(middle[0] is Cut);
    lemma_around(s, head, i, n, none, middle);
    lemma_coalesce_apart(cut, run);
    lemma_coalesce_raw(seq!['$'] + rest);
    let lit = seq![PartView::Lit(seq!['$'] + rest)];
    assert(coalesce(middle) =~= lit);
    assert(literal(head) + coalesce(middle) + literal(none) =~= literal(head) + lit);
    lemma_quoted_dollar(a, b);
}

proof fn lemma_quoted_dollar(a: Seq<char>, b: Seq<char>)
    requires
        names_nothing(b),
    ensures
        is_word(
            seq!['"'] + with_backslashes(a) + seq!['$'] + with_backslashes(b) + seq!['"'],
            quoted_literal(a) + seq![PartView::QLit(seq!['$'] + b)],
        ),
{
    let s = seq!['"'] + with_backslashes(a) + seq!['$'] + with_backslashes(b) + seq!['"'];
    let n = s.len() as int;
    let i = 1 + with_backslashes(a).len() as int;
    let none = Seq::<char>::empty();
    let cut = seq![Piece::Cut];
    assert(coalesce(cut) =~= Seq::<PartView>::empty()) by {
        assert(cut.drop_last() =~= Seq::<Piece>::empty());
        assert(coalesce(cut.drop_last()) == Seq::<PartView>::empty());
    }
    assert(s[i] == '$');
    lemma_first_escaped(b);
    if b.len() > 0 {
        assert(s[i + 1] == with_backslashes(b)[0]);
    } else {
        assert(with_backslashes(b).len() == 0);
        assert(s[i + 1] == '"');
    }
    assert(var_at(s, i + 1) == (None::<Seq<char>>, i + 1));
    let dollar = seq![Piece::Cut, Piece::Quoted('$')];
    assert(scan_double(s, i) == prepend(dollar, scan_double(s, i + 1)));
    assert(s.subrange(i + 1, n - 1) =~= with_backslashes(b));
    lemma_escaped_then(s, i + 1, b, n - 1);
    lemma_quoted_first('$', b);
    let run = quoted_pieces(seq!['$'] + b);
    let middle = cut + run;
    assert(dollar + quoted_pieces(b) =~= middle);
    assert(s[n - 1] == '"');
    assert(scan_double(s, i) == prepend(middle, scan_double(s, n - 1))) by {
        assert(dollar + (quoted_pieces(b) + Seq::<Piece>::empty()) =~= middle
            + Seq::<Piece>::empty());
    }
    assert(s.subrange(1, i) =~= with_backslashes(a));
    assert(s.subrange(n - 1, n - 1) =~= with_backslashes(none));
    assert(middle[0] is Cut);
    lemma_double_around(s, a, i, n - 1, none, middle);
    lemma_pieces_ends(seq!['$'] + b);
    lemma_coalesce_apart(cut, run);
    lemma_coalesce_quoted(seq!['$'] + b);
    let lit = seq![PartView::QLit(seq!['$'] + b)];
    assert(coalesce(middle) =~= lit);
    assert(quoted_literal(a) + coalesce(middle) + quoted_literal(none) =~= quoted_literal(a) + lit);
}

/// Empty quotes add nothing to a word and do not part what stands around them;
/// alone they are a word without parts.
pub proof fn law_empty_quotes(head: Seq<char>, quote: char, rest: Seq<char>)
    requires
        all_plain(head),
        all_plain(rest),
        quote == '\'' || quote == '"',
    ensures
        is_word(head + seq![quote, quote] + rest, literal(head + rest)),
{
    let s = head + seq![quote, quote] + rest;
    let n = s.len() as int;
    let i = head.len() as int;
    let none = Seq::<Piece>::empty();
    assert(s[i] == quote && s[i + 1] == quote);
    lemma_find_char(s, i + 1, '\'');
    if quote == '\'' {
        assert(find_char(s, i + 1, '\'') == Some(i + 1));
        assert(quoted_run(s, i + 1, i + 1) =~= none);
    } else {
        assert(reads(scan_double(s, i + 1), none, i + 2));
    }
    assert(scan_word(s, i, 0) == prepend(none, scan_word(s, i + 2, 0)));
    assert forall|j: int| 0 <= j < i implies is_inner(#[trigger] s[j]) && (s[j] == '~' ==> j != 0) by {
        assert(s[j] == head[j]);
        assert(is_plain(head[j]));
    }
    assert forall|j: int| i + 2 <= j < n implies is_inner(#[trigger] s[j]) && (s[j] == '~' ==> j != 0)
        by {
        assert(s[j] == rest[j - i - 2]);
        assert(is_plain(rest[j - i - 2]));
    }
    lemma_scan_raw(s, 0, i, 0);
    lemma_scan_raw(s, i + 2, n, 0);
    lemma_scan_end(s, 0);
    assert(s.subrange(0, i) =~= head);
    assert(s.subrange(i + 2, n) =~= rest);
    let a = raw_pieces(head);
    let b = raw_pieces(rest);
    assert(b + none =~= b);
    assert(none + b =~= b);
    lemma_raw_join(head, rest);
    assert(reads(scan_word(s, 0, 0), a + b, n));
    if i > 0 {
        assert(is_plain(head[0]));
        assert(s[0] == head[0]);
        assert(!at(s, 1, '>')) by {
            if i > 1 {
                assert(is_plain(head[1]));
                assert(s[1] == head[1]);
            }
        }
    }
    lemma_one_word(s, a + b);
    if (head + rest).len() > 0 {
        lemma_coalesce_raw(head + rest);
    } else {
        assert(a + b =~= none);
        assert(coalesce(none) == Seq::<PartView>::empty());
    }
}

/// Quoted texts side by side are one, whatever the quotes.
pub proof fn law_quotes_side_by_side(a: Seq<char>, b: Seq<char>)
    requires
        !a.contains('\''),
        (a + b).len() > 0,
    ensures
        is_word(
            seq!['\''] + a + seq!['\'', '"'] + with_backslashes(b) + seq!['"'],
            seq![PartView::QLit(a + b)],
        ),
{
    let s = seq!['\''] + a + seq!['\'', '"'] + with_backslashes(b) + seq!['"'];
    let n = s.len() as int;
    let k = 1 + a.len() as int;
    assert(s[0] == '\'' && s[k] == '\'' && s[k + 1] == '"');
    assert forall|j: int| 1 <= j < k implies s[j] != '\'' by {
        assert(s[j] == a[j - 1]);
        assert(a.contains(a[j - 1]));
    }
    lemma_find_char(s, 1, '\'');
    lemma_quoted_run(s, 1, k);
    assert(s.subrange(1, k) =~= a);
    assert(s.skip(k + 2) =~= with_backslashes(b) + seq!['"']);
    lemma_scan_escaped(s, k + 2, b);
    lemma_scan_end(s, 0);
    let none = Seq::<Piece>::empty();
    assert(quoted_pieces(b) + none =~= quoted_pieces(b));
    assert(reads(scan_word(s, k + 1, 0), quoted_pieces(b), n));
    assert(reads(scan_word(s, 0, 0), quoted_pieces(a) + quoted_pieces(b), n));
    lemma_quoted_join(a, b);
    lemma_one_word(s, quoted_pieces(a + b));
    lemma_coalesce_quoted(a + b);
}

/// A quote left open inside a substitution is what is wrong with the line.
pub proof fn law_open_quote_in_a_substitution(
    head: Seq<char>,
    body: Seq<char>,
    quote: char,
    text: Seq<char>,
)
    requires
        all_plain(head),
        head.len() > 0,
        is_balanced(body),
        quote == '\'' || quote == '"',
        !text.contains(quote),
    ensures
        lexed(head + seq!['$', '('] + body + seq![quote] + text) == Err::<
            Seq<SpannedView>,
            ParseError,
        >(ParseError::UnterminatedQuote(quote)),
{
    let s = head + seq!['$', '('] + body + seq![quote] + text;
    let n = head.len() as int;
    let k = n + 2 + body.len();
    lemma_head_scans(s, head);
    assert(s[n] == '$' && s[n + 1] == '(' && s[k] == quote);
    assert(s.subrange(n + 2, k) =~= body);
    lemma_close_balanced(s, n + 2, body, 0);
    assert(open_parens(body, 0) == 0);
    lemma_find_char(s, k + 1, quote);
    assert(find_char(s, k + 1, quote) is None) by {
        if let Some(j) = find_char(s, k + 1, quote) {
            assert(s[j] == text[j - k - 1]);
            assert(text.contains(text[j - k - 1]));
        }
    }
    lemma_open_quote(s, k, quote);
}

proof fn lemma_open_quote(s: Seq<char>, k: int, quote: char)
    requires
        0 <= k < s.len(),
        s[k] == quote,
        quote == '\'' || quote == '"',
        find_char(s, k + 1, quote) is None,
    ensures
        close_paren(s, k, 1) == Err::<int, ParseError>(ParseError::UnterminatedQuote(quote)),
{
}

/// The message of each error.
pub proof fn law_error_messages(c: char)
    ensures
        ParseError::UnterminatedQuote('\'').message_text() == "unterminated single quote"@,
        ParseError::UnterminatedQuote('"').message_text() == "unterminated double quote"@,
        c != '\'' && c != '"' ==> ParseError::UnterminatedQuote(c).message_text()
            == "unterminated quote"@,
        ParseError::TrailingBackslash.message_text() == "trailing backslash"@,
        ParseError::UnexpectedAmp.message_text() == "unexpected '&'"@,
        ParseError::ExpectedCommand.message_text() == "expected a command"@,
        ParseError::MissingRedirectTarget.message_text() == "missing redirect target"@,
        ParseError::UnterminatedSubst.message_text() == "unterminated command substitution"@,
{
}

/// No blanks are needed behind operators either: what follows is read on its own,
/// unless it would make the operator a longer one.
pub proof fn law_operators_need_no_blanks(text: Seq<char>, token: TokenView, rest: Seq<char>)
    requires
        writes_operator(text, token),
        rest.len() > 0 && (token is Pipe) ==> rest[0] != '|',
        rest.len() > 0 && (token is Amp) ==> rest[0] != '&',
        rest.len() > 0 && (token matches TokenView::Out { append } && !append) ==> rest[0] != '>',
        rest.len() > 0 && (token matches TokenView::ErrOut { append } && !append) ==> rest[0] != '>',
    ensures
        lexed(text + rest) == match lexed(rest) {
            Ok(more) => Ok::<Seq<SpannedView>, ParseError>(
                seq![SpannedView { start: 0, end: text.len() as int, token }] + moved_tokens(
                    more,
                    text.len() as int,
                ),
            ),
            Err(e) => Err(e),
        },
{
    let s = text + rest;
    let m = text.len() as int;
    assert(s[0] == text[0]);
    if m > 1 {
        assert(s[1] == text[1]);
    }
    if m > 2 {
        assert(s[2] == text[2]);
    }
    if rest.len() > 0 {
        assert(s[m] == rest[0]);
    }
    assert(!is_white_space(s[0]));
    assert(token_at(s, 0) == Ok::<(TokenView, int), ParseError>((token, m)));
    assert(stands_at(rest, s, m));
    lemma_move_tokens(rest, s, m, 0);
}

} // verus!
