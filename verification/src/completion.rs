//! Tab completion: command names in command position, file paths elsewhere.
//!
//! Works on candidate lists that the caller supplies: the builtins and the
//! PATH executables for commands, file names for arguments.

use vstd::prelude::*;

use crate::lexer::{
    is_operator, is_operator_char, law_spans_ordered, lex_with_spans, lexed, span_views,
    SpannedView, Token, TokenView,
};
use crate::order::{insert_once, strictly_in_order, text_lt};
use crate::text::{
    byte_len, chars_of, has_prefix, is_white_space, is_whitespace, lemma_byte_len_grows, string_of,
    text_len, texts,
};

verus! {

/// Whether the word under the cursor is a command name or an argument.
#[derive(Debug, Clone, Copy, PartialEq, Eq, Structural)]
pub enum Position {
    Command,
    Argument,
}

/// The position of a word where a command is (or is not) expected.
pub open spec fn kind_of(expect_command: bool) -> Position {
    if expect_command {
        Position::Command
    } else {
        Position::Argument
    }
}

/// An operator after which a command is expected.
pub open spec fn starts_command(token: TokenView) -> bool {
    token is Pipe || token is Semi || token is And || token is Or || token is Amp
}

/// Whether a command is expected after `token` where one was (or was not)
/// before it: the first word after an operator is the command, redirects
/// change nothing.
pub open spec fn expects_after(token: TokenView, expect_command: bool) -> bool {
    if starts_command(token) {
        true
    } else if token is Word {
        false
    } else {
        expect_command
    }
}

/// What `pos` is in, among the tokens from `k` on: the word that it is inside
/// or right after, or a fresh word.
pub open spec fn position_among(
    tokens: Seq<SpannedView>,
    pos: int,
    k: int,
    expect_command: bool,
) -> Position
    decreases tokens.len() - k,
{
    if !(0 <= k < tokens.len()) || tokens[k].start >= pos || (tokens[k].token is Word && pos
        <= tokens[k].end) {
        kind_of(expect_command)
    } else {
        position_among(tokens, pos, k + 1, expects_after(tokens[k].token, expect_command))
    }
}

/// What the character position `pos` of a line is in; an argument where the
/// line does not lex.
pub open spec fn position_of(line: Seq<char>, pos: int) -> Position {
    match lexed(line) {
        Ok(tokens) => position_among(tokens, pos, 0, true),
        Err(_) => Position::Argument,
    }
}

/// A character that no word under the cursor holds.
pub open spec fn ends_word(c: char) -> bool {
    is_white_space(c) || is_operator_char(c)
}

/// The start of the word that ends at `p`.
pub open spec fn word_from(line: Seq<char>, p: int) -> int
    decreases p,
{
    if 0 < p <= line.len() && !ends_word(line[p - 1]) {
        word_from(line, p - 1)
    } else {
        p
    }
}

/// `pos`, or the end of the line where it lies past it.
pub open spec fn clamped(line: Seq<char>, pos: int) -> int {
    if pos <= line.len() {
        pos
    } else {
        line.len() as int
    }
}

/// `found` holds the entries of `choices` that start with `word`, sorted and
/// each once.
pub open spec fn are_candidates(
    found: Seq<Seq<char>>,
    word: Seq<char>,
    choices: Seq<Seq<char>>,
) -> bool {
    &&& strictly_in_order(found)
    &&& forall|t: Seq<char>| #[trigger]
        found.contains(t) <==> choices.contains(t) && word.is_prefix_of(t)
}

/// Classify `pos` (a char index into `line`) with the same command-position
/// logic as the highlighter: the first word after the start, `|`, `;`, `&&`
/// or `||` is a command, everything else an argument. On a lexer error (e.g.
/// an open quote while typing) fall back to argument position — path
/// completion still works there.
pub fn position(line: &str, pos: usize) -> (r: Position)
    ensures
        r == position_of(line@, pos as int),
{
    let spans = match lex_with_spans(line) {
        Ok(spans) => spans,
        Err(_) => {
            return Position::Argument;
        },
    };
    let ghost tokens = span_views(spans@);
    let mut expect_command = true;
    let mut k: usize = 0;
    while k < spans.len()
        invariant
            tokens == span_views(spans@),
            lexed(line@) == Ok::<Seq<SpannedView>, crate::lexer::ParseError>(tokens),
            k <= spans@.len(),
            position_of(line@, pos as int) == position_among(
                tokens,
                pos as int,
                k as int,
                expect_command,
            ),
        decreases spans.len() - k,
    {
        let (span, token) = &spans[k];
        proof {
            assert(tokens[k as int].start == span.start);
            assert(tokens[k as int].end == span.end);
            assert(tokens[k as int].token == token@);
        }
        // The cursor is before this token: a fresh word.
        if span.start >= pos {
            return kind(expect_command);
        }
        match token {
            // Inside (or right after) this word: its kind decides.
            Token::Word(_) => {
                if pos <= span.end {
                    return kind(expect_command);
                }
                expect_command = false;
            },
            Token::Out { .. } => {},
            Token::ErrOut { .. } => {},
            Token::In => {},
            _ => {
                expect_command = true;
            },
        }
        k += 1;
    }
    kind(expect_command)
}

fn kind(expect_command: bool) -> (r: Position)
    ensures
        r == kind_of(expect_command),
{
    if expect_command {
        Position::Command
    } else {
        Position::Argument
    }
}

/// Char index where the word under `pos` starts (word chars are anything but
/// whitespace and shell operators).
pub fn word_start(line: &str, pos: usize) -> (r: usize)
    ensures
        r == word_from(line@, clamped(line@, pos as int)),
        r <= clamped(line@, pos as int),
{
    let chars = chars_of(line);
    let p: usize = if pos <= chars.len() {
        pos
    } else {
        chars.len()
    };
    let mut start: usize = p;
    while start > 0 && !is_whitespace(chars[start - 1]) && !is_operator(chars[start - 1])
        invariant
            chars@ == line@,
            start <= p <= chars@.len(),
            word_from(line@, p as int) == word_from(line@, start as int),
        decreases start,
    {
        start -= 1;
    }
    start
}

/// Entries of `choices` starting with `word`, sorted and deduped.
pub fn candidates(word: &str, choices: &[String]) -> (r: Vec<String>)
    ensures
        are_candidates(texts(r@), word@, texts(choices@)),
{
    let prefix = chars_of(word);
    let ghost all = texts(choices@);
    let mut out: Vec<String> = Vec::new();
    let mut i: usize = 0;
    proof {
        assert(texts(out@) =~= Seq::<Seq<char>>::empty());
    }
    while i < choices.len()
        invariant
            all == texts(choices@),
            prefix@ == word@,
            i <= choices@.len(),
            are_candidates(texts(out@), word@, all.take(i as int)),
        decreases choices.len() - i,
    {
        let chars = chars_of(choices[i].as_str());
        let ghost item = choices@[i as int]@;
        let ghost before = texts(out@);
        let hit = has_prefix(chars.as_slice(), prefix.as_slice());
        if hit {
            insert_once(&mut out, &choices[i]);
        }
        proof {
            let next = all.take(i + 1);
            assert(next =~= all.take(i as int).push(item));
            assert forall|t: Seq<char>| #[trigger]
                texts(out@).contains(t) <==> next.contains(t) && word@.is_prefix_of(t) by {
                assert(before.contains(t) <==> all.take(i as int).contains(t)
                    && word@.is_prefix_of(t));
                if next.contains(t) {
                    let k = choose|k: int| 0 <= k < next.len() && next[k] == t;
                    if k < i {
                        assert(all.take(i as int)[k] == t);
                    }
                }
                if all.take(i as int).contains(t) {
                    let k = choose|k: int|
                        0 <= k < all.take(i as int).len() && all.take(i as int)[k] == t;
                    assert(next[k] == t);
                }
                assert(next[i as int] == item);
            }
        }
        i += 1;
    }
    proof {
        assert(all.take(choices@.len() as int) =~= all);
    }
    out
}

/// Complete the word under `pos` (char index): from `commands` in command
/// position, from `files` in argument position. Returns the word's start and
/// the candidates.
pub fn complete(line: &str, pos: usize, commands: &[String], files: &[String]) -> (r: (
    usize,
    Vec<String>,
))
    ensures
        ({
            let end = clamped(line@, pos as int);
            let start = word_from(line@, end);
            let choices = if position_of(line@, pos as int) is Command {
                texts(commands@)
            } else {
                texts(files@)
            };
            r.0 == start && are_candidates(texts(r.1@), line@.subrange(start, end), choices)
        }),
{
    let chars = chars_of(line);
    let start = word_start(line, pos);
    let end: usize = if pos <= chars.len() {
        pos
    } else {
        chars.len()
    };
    let word = string_of(chars.as_slice(), start, end);
    let found = match position(line, pos) {
        Position::Command => candidates(word.as_str(), commands),
        Position::Argument => candidates(word.as_str(), files),
    };
    (start, found)
}

// ---------------------------------------------------------------------------
// Cursors.

/// The character position where the first `pos` bytes of a line end: the
/// first one with at least that many bytes before it.
pub open spec fn ends_bytes(line: Seq<char>, pos: int, index: int) -> bool {
    &&& 0 <= index <= line.len()
    &&& forall|k: int| 0 <= k < index ==> byte_len(#[trigger] line.take(k)) < pos
    &&& index < line.len() ==> pos <= byte_len(line.take(index))
}

/// The character position of the byte position `pos` of a line: a line editor
/// counts bytes, the lexer characters. A position inside a character is taken
/// to be after it, one past the end to be the end.
pub fn char_index(line: &str, pos: usize) -> (r: usize)
    ensures
        ends_bytes(line@, pos as int, r as int),
{
    let chars = chars_of(line);
    let mut before = String::new();
    let mut index: usize = 0;
    proof {
        assert(line@.take(0) =~= before@);
    }
    while index < chars.len() && text_len(before.as_str()) < pos
        invariant
            chars@ == line@,
            index <= chars@.len(),
            before@ == line@.take(index as int),
            forall|k: int| 0 <= k < index ==> byte_len(#[trigger] line@.take(k)) < pos,
        decreases chars.len() - index,
    {
        before.push(chars[index]);
        proof {
            assert(line@.take(index + 1) =~= line@.take(index as int).push(line@[index as int]));
        }
        index += 1;
    }
    index
}

/// The byte position of the character position `index` of a line.
pub fn byte_index(line: &str, index: usize) -> (r: usize)
    ensures
        r == byte_len(line@.take(clamped(line@, index as int))),
{
    let chars = chars_of(line);
    let end: usize = if index <= chars.len() {
        index
    } else {
        chars.len()
    };
    proof {
        assert(line@.subrange(0, end as int) =~= line@.take(end as int));
    }
    let before = string_of(chars.as_slice(), 0, end);
    text_len(before.as_str())
}

// ---------------------------------------------------------------------------
// Laws.

/// Between two characters the two ways to count agree: the byte position of a
/// character position leads back to it, and to no other.
pub proof fn law_cursors_agree(line: Seq<char>, index: int, found: int)
    requires
        0 <= index <= line.len(),
        ends_bytes(line, byte_len(line.take(index)), found),
    ensures
        found == index,
{
    if found < index {
        lemma_byte_len_grows(line, found, index);
    }
}

/// The word under the cursor is as long as it can be: it holds no white space
/// and no operator, and one of them, or the start of the line, is before it.
pub proof fn law_word_is_maximal(line: Seq<char>, p: int)
    requires
        0 <= p <= line.len(),
    ensures
        0 <= word_from(line, p) <= p,
        forall|k: int| word_from(line, p) <= k < p ==> !ends_word(#[trigger] line[k]),
        word_from(line, p) > 0 ==> ends_word(line[word_from(line, p) - 1]),
    decreases p,
{
    if 0 < p && !ends_word(line[p - 1]) {
        law_word_is_maximal(line, p - 1);
    }
}

/// The candidates are determined: no two lists with the same entries in
/// strict order differ.
pub proof fn law_candidates_unique(
    a: Seq<Seq<char>>,
    b: Seq<Seq<char>>,
    word: Seq<char>,
    choices: Seq<Seq<char>>,
)
    requires
        are_candidates(a, word, choices),
        are_candidates(b, word, choices),
    ensures
        a == b,
{
    assert forall|t: Seq<char>| a.contains(t) <==> b.contains(t) by {}
    crate::order::lemma_strict_order_unique(a, b);
}

/// Whether a command is expected at token `k`, where one is (or is not) at the
/// first token.
pub open spec fn expected_from(tokens: Seq<SpannedView>, k: int, expect_command: bool) -> bool
    decreases k,
{
    if k <= 0 {
        expect_command
    } else {
        expects_after(tokens[k - 1].token, expected_from(tokens, k - 1, expect_command))
    }
}

proof fn lemma_position_reaches(
    tokens: Seq<SpannedView>,
    pos: int,
    i: int,
    k: int,
)
    requires
        0 <= i <= k < tokens.len(),
        tokens[k].token is Word,
        tokens[k].start < pos <= tokens[k].end,
        forall|j: int| 0 <= j < k ==> (#[trigger] tokens[j]).end < pos && tokens[j].start < pos,
    ensures
        position_among(tokens, pos, i, expected_from(tokens, i, true)) == kind_of(
            expected_from(tokens, k, true),
        ),
    decreases k - i,
{
    if i < k {
        assert(tokens[i].end < pos);
        lemma_position_reaches(tokens, pos, i + 1, k);
    }
}

/// Inside a word the position is that of the word: a command exactly where
/// one is expected.
pub proof fn law_position_inside_a_word(line: Seq<char>, k: int, pos: int)
    requires
        lexed(line) is Ok,
        0 <= k < lexed(line)->Ok_0.len(),
        lexed(line)->Ok_0[k].token is Word,
        lexed(line)->Ok_0[k].start < pos <= lexed(line)->Ok_0[k].end,
    ensures
        position_of(line, pos) == kind_of(expected_from(lexed(line)->Ok_0, k, true)),
{
    let tokens = lexed(line)->Ok_0;
    assert forall|j: int| 0 <= j < k implies (#[trigger] tokens[j]).end < pos && tokens[j].start
        < pos by {
        law_spans_ordered(line, j, k);
    }
    lemma_position_reaches(tokens, pos, 0, k);
}

/// A redirect operator, which takes a word of its own.
pub open spec fn is_redirect(token: TokenView) -> bool {
    token is Out || token is ErrOut || token is In
}

/// A command is expected at token `k` exactly where the token before it,
/// redirect operators (those from `j` on) aside, is none at all or one of `|`,
/// `;`, `&&`, `||` and `&`; after a word none is.
pub proof fn law_commands_are_expected(tokens: Seq<SpannedView>, j: int, k: int)
    requires
        0 <= j <= k <= tokens.len(),
        forall|i: int| j <= i < k ==> is_redirect((#[trigger] tokens[i]).token),
    ensures
        j == 0 ==> expected_from(tokens, k, true),
        j > 0 ==> match tokens[j - 1].token {
            TokenView::Pipe => expected_from(tokens, k, true),
            TokenView::Semi => expected_from(tokens, k, true),
            TokenView::And => expected_from(tokens, k, true),
            TokenView::Or => expected_from(tokens, k, true),
            TokenView::Amp => expected_from(tokens, k, true),
            TokenView::Word(_) => !expected_from(tokens, k, true),
            _ => true,
        },
    decreases k - j,
{
    if j < k {
        assert(is_redirect(tokens[k - 1].token));
        law_commands_are_expected(tokens, j, k - 1);
    }
}

/// Inside a word or right after it, the position is that of a command at the
/// start of the line and right after `|`, `;`, `&&`, `||` and `&`, and that of
/// an argument right after another word. Redirect operators before the word
/// (those from token `j` on) make no difference.
pub proof fn law_position_in_a_line(line: Seq<char>, j: int, k: int, pos: int)
    requires
        lexed(line) is Ok,
        0 <= j <= k < lexed(line)->Ok_0.len(),
        forall|i: int| j <= i < k ==> is_redirect((#[trigger] lexed(line)->Ok_0[i]).token),
        lexed(line)->Ok_0[k].token is Word,
        lexed(line)->Ok_0[k].start < pos <= lexed(line)->Ok_0[k].end,
    ensures
        ({
            let tokens = lexed(line)->Ok_0;
            &&& j == 0 ==> position_of(line, pos) is Command
            &&& j > 0 ==> match tokens[j - 1].token {
                TokenView::Pipe => position_of(line, pos) is Command,
                TokenView::Semi => position_of(line, pos) is Command,
                TokenView::And => position_of(line, pos) is Command,
                TokenView::Or => position_of(line, pos) is Command,
                TokenView::Amp => position_of(line, pos) is Command,
                TokenView::Word(_) => position_of(line, pos) is Argument,
                _ => true,
            }
        }),
{
    law_position_inside_a_word(line, k, pos);
    law_commands_are_expected(lexed(line)->Ok_0, j, k);
}

proof fn lemma_position_skips(tokens: Seq<SpannedView>, pos: int, i: int, k: int)
    requires
        0 <= i <= k <= tokens.len(),
        forall|j: int|
            0 <= j < k ==> (#[trigger] tokens[j]).start < pos && (tokens[j].token is Word
                ==> tokens[j].end < pos),
        k < tokens.len() ==> pos <= tokens[k].start,
    ensures
        position_among(tokens, pos, i, expected_from(tokens, i, true)) == kind_of(
            expected_from(tokens, k, true),
        ),
    decreases k - i,
{
    if i < k {
        assert(tokens[i].start < pos);
        lemma_position_skips(tokens, pos, i + 1, k);
    }
}

/// Where no word is yet, between the tokens before `k` and those from `k` on,
/// the position is that of the word that would stand there: a command at the
/// start of the line and after `|`, `;`, `&&`, `||` and `&`, an argument after
/// a word and the blank behind it.
pub proof fn law_position_of_a_fresh_word(line: Seq<char>, k: int, pos: int)
    requires
        lexed(line) is Ok,
        0 <= k <= lexed(line)->Ok_0.len(),
        k > 0 ==> lexed(line)->Ok_0[k - 1].end < pos,
        k < lexed(line)->Ok_0.len() ==> pos <= lexed(line)->Ok_0[k].start,
    ensures
        k == 0 ==> position_of(line, pos) is Command,
        k > 0 ==> match lexed(line)->Ok_0[k - 1].token {
            TokenView::Pipe => position_of(line, pos) is Command,
            TokenView::Semi => position_of(line, pos) is Command,
            TokenView::And => position_of(line, pos) is Command,
            TokenView::Or => position_of(line, pos) is Command,
            TokenView::Amp => position_of(line, pos) is Command,
            TokenView::Word(_) => position_of(line, pos) is Argument,
            _ => true,
        },
{
    let tokens = lexed(line)->Ok_0;
    assert forall|j: int| 0 <= j < k implies (#[trigger] tokens[j]).start < pos && (
    tokens[j].token is Word ==> tokens[j].end < pos) by {
        if j < k - 1 {
            law_spans_ordered(line, j, k - 1);
        } else {
            crate::lexer::law_spans_cover(line);
            crate::lexer::lemma_covers_index(line, 0, tokens, j);
        }
    }
    lemma_position_skips(tokens, pos, 0, k);
    law_commands_are_expected(tokens, k, k);
}

/// Where the line does not lex, and only there, every position is that of an
/// argument, so that an open quote completes to file names.
pub proof fn law_open_quotes_complete_files(line: Seq<char>, pos: int)
    requires
        lexed(line) is Err,
    ensures
        position_of(line, pos) is Argument,
{
}

/// The word under the cursor ends at any white space and at each of the
/// characters `|`, `;`, `&`, `<` and `>`, and at nothing else.
pub proof fn law_word_boundaries(c: char)
    ensures
        ends_word(c) <==> is_white_space(c) || c == '|' || c == ';' || c == '&' || c == '<' || c
            == '>',
{
}

/// The candidates are the choices that go on from the word, each once and in
/// alphabetical order.
pub proof fn law_candidates_go_on_from_the_word(
    found: Seq<Seq<char>>,
    word: Seq<char>,
    choices: Seq<Seq<char>>,
    rest: Seq<char>,
    i: int,
    j: int,
)
    requires
        are_candidates(found, word, choices),
    ensures
        choices.contains(word + rest) ==> found.contains(word + rest),
        0 <= i < found.len() ==> choices.contains(found[i]) && found[i].len() >= word.len()
            && found[i].take(word.len() as int) == word,
        0 <= i < j < found.len() ==> text_lt(found[i], found[j]),
{
    let t = word + rest;
    assert(word =~= t.subrange(0, word.len() as int));
    if choices.contains(t) {
        assert(word.is_prefix_of(t));
        assert(found.contains(t));
    }
    if 0 <= i < found.len() {
        assert(found.contains(found[i]));
        assert(found[i].take(word.len() as int) =~= found[i].subrange(0, word.len() as int));
    }
    if 0 <= i < j < found.len() {
        assert(text_lt(found[i], found[j]));
    }
}

/// A cursor past the end counts as one at the end, and the word under it starts
/// behind the last boundary before it.
pub proof fn law_word_under_the_cursor(before: Seq<char>, word: Seq<char>, after: Seq<char>, pos: int)
    requires
        before.len() > 0 ==> ends_word(before.last()),
        forall|k: int| 0 <= k < word.len() ==> !ends_word(#[trigger] word[k]),
        pos > (before + word).len(),
    ensures
        word_from(before + word + after, (before + word).len() as int) == before.len(),
        clamped(before + word, pos) == (before + word).len(),
        clamped(before + word, before.len() as int) == before.len(),
{
    let line = before + word + after;
    let n = before.len() as int;
    let p = (before + word).len() as int;
    law_word_is_maximal(line, p);
    let start = word_from(line, p);
    if start > n {
        assert(line[start - 1] == word[start - 1 - n]);
    }
    if start < n {
        assert(line[n - 1] == before.last());
        assert(!ends_word(line[n - 1]));
    }
}

/// A byte position inside a character or at its end is the character position
/// behind it; one past the end of the line is its end, and 0 its start.
pub proof fn law_byte_positions(line: Seq<char>, pos: int, found: int, i: int)
    requires
        ends_bytes(line, pos, found),
    ensures
        0 <= i < line.len() && byte_len(line.take(i)) < pos <= byte_len(line.take(i + 1)) ==> found
            == i + 1,
        pos > byte_len(line) ==> found == line.len(),
        pos <= 0 ==> found == 0,
{
    if 0 <= i < line.len() && byte_len(line.take(i)) < pos <= byte_len(line.take(i + 1)) {
        if found > i + 1 {
            assert(byte_len(line.take(i + 1)) < pos);
        }
        if found < i {
            lemma_byte_len_grows(line, found, i);
        }
    }
    if found < line.len() {
        lemma_byte_len_grows(line, found, line.len() as int);
        assert(line.take(line.len() as int) =~= line);
    }
    if pos <= 0 && found > 0 {
        assert(byte_len(line.take(0)) < pos);
        assert(byte_len(line.take(0)) >= 0) by {
            reveal(byte_len);
        }
    }
}

} // verus!
