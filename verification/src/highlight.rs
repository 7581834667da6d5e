//! Line highlighting: command validation colors for the line editor.

use vstd::prelude::*;

use crate::completion::{expected_from, expects_after, is_redirect, law_commands_are_expected};
use crate::lexer::{
    covers, law_spans_cover, lex_with_spans, lexed, part_views, span_views, Part, PartView,
    SpannedView, Token, TokenView,
};
use crate::text::{chars_of, string_from, string_of, texts};

verus! {

/// The start of a terminal escape sequence.
pub open spec fn is_escape(c: char) -> bool {
    c == '\u{1b}'
}

/// The color of a part of the line.
#[derive(Debug, Clone, Copy, PartialEq, Eq, Structural)]
pub enum Color {
    Green,
    Red,
    Cyan,
}

/// The escape sequence that switches to a color.
pub open spec fn color_code(color: Color) -> Seq<char> {
    match color {
        Color::Green => seq!['\u{1b}', '[', '3', '2', 'm'],
        Color::Red => seq!['\u{1b}', '[', '3', '1', 'm'],
        Color::Cyan => seq!['\u{1b}', '[', '3', '6', 'm'],
    }
}

/// The escape sequence that switches back to plain text.
pub open spec fn reset_code() -> Seq<char> {
    seq!['\u{1b}', '[', '0', 'm']
}

/// The text of a word made only of literal parts, else `None`.
pub open spec fn literal_text(parts: Seq<PartView>) -> Option<Seq<char>>
    decreases parts.len(),
{
    if parts.len() == 0 {
        Some(Seq::empty())
    } else {
        match (literal_text(parts.drop_last()), parts.last()) {
            (Some(before), PartView::Lit(text)) => Some(before + text),
            (Some(before), PartView::QLit(text)) => Some(before + text),
            _ => None,
        }
    }
}

/// The command name that `token` has to be looked up under, if it is the
/// literal name of a command.
pub open spec fn lookup_name(token: TokenView, expect_command: bool) -> Option<Seq<char>> {
    match token {
        TokenView::Word(parts) => if expect_command {
            literal_text(parts)
        } else {
            None
        },
        _ => None,
    }
}

/// The names to look up, in order.
pub open spec fn lookups(tokens: Seq<SpannedView>, expect_command: bool) -> Seq<Seq<char>>
    decreases tokens.len(),
{
    if tokens.len() == 0 {
        Seq::empty()
    } else {
        let rest = lookups(tokens.skip(1), expects_after(tokens[0].token, expect_command));
        match lookup_name(tokens[0].token, expect_command) {
            Some(name) => seq![name] + rest,
            None => rest,
        }
    }
}

/// The color of a token: cyan for operators, green for a command that is
/// known, red for one that is not, none for the rest.
pub open spec fn token_color(token: TokenView, expect_command: bool, known: bool) -> Option<Color> {
    if !(token is Word) {
        Some(Color::Cyan)
    } else if lookup_name(token, expect_command) is Some {
        if known {
            Some(Color::Green)
        } else {
            Some(Color::Red)
        }
    } else {
        None
    }
}

/// A piece of the line in its color.
pub open spec fn painted(text: Seq<char>, color: Option<Color>) -> Seq<char> {
    match color {
        Some(color) => color_code(color) + text + reset_code(),
        None => text,
    }
}

/// The first answer; no where there is none.
pub open spec fn first_answer(answers: Seq<bool>) -> bool {
    answers.len() > 0 && answers[0]
}

/// The answers that are left after `token`.
pub open spec fn answers_after(
    token: TokenView,
    expect_command: bool,
    answers: Seq<bool>,
) -> Seq<bool> {
    if lookup_name(token, expect_command) is Some && answers.len() > 0 {
        answers.skip(1)
    } else {
        answers
    }
}

/// The line from `cursor` on in its colors, with its tokens from there on and
/// the answers to their lookups.
pub open spec fn styled_from(
    s: Seq<char>,
    tokens: Seq<SpannedView>,
    answers: Seq<bool>,
    cursor: int,
    expect_command: bool,
) -> Seq<char>
    decreases tokens.len(),
{
    if tokens.len() == 0 {
        s.subrange(cursor, s.len() as int)
    } else {
        let t = tokens[0];
        s.subrange(cursor, t.start) + painted(
            s.subrange(t.start, t.end),
            token_color(t.token, expect_command, first_answer(answers)),
        ) + styled_from(
            s,
            tokens.skip(1),
            answers_after(t.token, expect_command, answers),
            t.end,
            expects_after(t.token, expect_command),
        )
    }
}

/// The line in its colors; unstyled where it does not lex.
pub open spec fn styled(line: Seq<char>, answers: Seq<bool>) -> Seq<char> {
    match lexed(line) {
        Ok(tokens) => styled_from(line, tokens, answers, 0, true),
        Err(_) => line,
    }
}

/// The command names to look up in a line.
pub open spec fn line_lookups(line: Seq<char>) -> Seq<Seq<char>> {
    match lexed(line) {
        Ok(tokens) => lookups(tokens, true),
        Err(_) => Seq::empty(),
    }
}

/// The text of a word made only of literal parts, else `None`.
pub fn literal_word(parts: &[Part]) -> (r: Option<String>)
    ensures
        match r {
            Some(text) => literal_text(part_views(parts@)) == Some(text@),
            None => literal_text(part_views(parts@)) is None,
        },
{
    let ghost all = part_views(parts@);
    let mut text = String::new();
    let mut i: usize = 0;
    proof {
        assert(text@ =~= Seq::<char>::empty());
    }
    while i < parts.len()
        invariant
            all == part_views(parts@),
            i <= parts@.len(),
            literal_text(all.take(i as int)) == Some(text@),
        decreases parts.len() - i,
    {
        proof {
            assert(all.take(i + 1).drop_last() =~= all.take(i as int));
            assert(all.take(i + 1).last() == parts@[i as int]@);
        }
        match &parts[i] {
            Part::Lit(lit) => text.append(lit.as_str()),
            Part::QLit(lit) => text.append(lit.as_str()),
            _ => {
                proof {
                    lemma_literal_stops(all, i + 1);
                }
                return None;
            },
        }
        i += 1;
    }
    proof {
        assert(all.take(parts@.len() as int) =~= all);
    }
    Some(text)
}

proof fn lemma_literal_stops(parts: Seq<PartView>, n: int)
    requires
        0 <= n <= parts.len(),
        literal_text(parts.take(n)) is None,
    ensures
        literal_text(parts) is None,
    decreases parts.len(),
{
    if n == parts.len() {
        assert(parts.take(n) =~= parts);
    } else {
        assert(parts.drop_last().take(n) =~= parts.take(n));
        lemma_literal_stops(parts.drop_last(), n);
    }
}

fn push_code(out: &mut String, color: Color)
    ensures
        final(out)@ == old(out)@ + color_code(color),
{
    let ghost before = out@;
    out.push('\u{1b}');
    out.push('[');
    out.push('3');
    match color {
        Color::Green => out.push('2'),
        Color::Red => out.push('1'),
        Color::Cyan => out.push('6'),
    }
    out.push('m');
    proof {
        assert(out@ =~= before + color_code(color));
    }
}

fn push_painted(out: &mut String, text: &str, color: Option<Color>)
    ensures
        final(out)@ == old(out)@ + painted(text@, color),
{
    let ghost before = out@;
    match color {
        Some(color) => {
            push_code(out, color);
            out.append(text);
            out.push('\u{1b}');
            out.push('[');
            out.push('0');
            out.push('m');
            proof {
                assert(out@ =~= before + (color_code(color) + text@ + reset_code()));
            }
        },
        None => out.append(text),
    }
}

/// Whether a command is expected after `token`.
fn next_expects(token: &Token, expect_command: bool) -> (r: bool)
    ensures
        r == expects_after(token@, expect_command),
{
    match token {
        Token::Word(_) => false,
        Token::Out { .. } => expect_command,
        Token::ErrOut { .. } => expect_command,
        Token::In => expect_command,
        _ => true,
    }
}

/// The command name that `token` has to be looked up under.
fn name_to_look_up(token: &Token, expect_command: bool) -> (r: Option<String>)
    ensures
        match r {
            Some(name) => lookup_name(token@, expect_command) == Some(name@),
            None => lookup_name(token@, expect_command) is None,
        },
{
    match token {
        // Only fully literal names can be looked up; `$VAR`-built command
        // names stay unstyled.
        Token::Word(parts) => if expect_command {
            literal_word(parts.as_slice())
        } else {
            None
        },
        _ => None,
    }
}

/// The command names to look up in a line, in order.
pub fn names_to_look_up(line: &str) -> (r: Vec<String>)
    ensures
        texts(r@) == line_lookups(line@),
{
    let mut names: Vec<String> = Vec::new();
    let spans = match lex_with_spans(line) {
        Ok(spans) => spans,
        Err(_) => {
            proof {
                assert(texts(names@) =~= Seq::<Seq<char>>::empty());
            }
            return names;
        },
    };
    let ghost tokens = span_views(spans@);
    let mut expect_command = true;
    let mut k: usize = 0;
    proof {
        assert(tokens.skip(0) =~= tokens);
        assert(texts(names@) + lookups(tokens, true) =~= lookups(tokens, true));
    }
    while k < spans.len()
        invariant
            tokens == span_views(spans@),
            k <= spans@.len(),
            lookups(tokens, true) == texts(names@) + lookups(
                tokens.skip(k as int),
                expect_command,
            ),
        decreases spans.len() - k,
    {
        let ghost before = texts(names@);
        let token = &spans[k].1;
        proof {
            assert(tokens.skip(k as int)[0] == tokens[k as int]);
            assert(tokens.skip(k as int).skip(1) =~= tokens.skip(k + 1));
        }
        let ghost rest = lookups(tokens.skip(k + 1), expects_after(token@, expect_command));
        if let Some(name) = name_to_look_up(token, expect_command) {
            names.push(name);
            proof {
                assert(texts(names@) =~= before.push(name@));
                assert(before + (seq![name@] + rest) =~= texts(names@) + rest);
            }
        }
        expect_command = next_expects(token, expect_command);
        k += 1;
    }
    proof {
        assert(tokens.skip(spans@.len() as int) =~= Seq::<SpannedView>::empty());
        assert(texts(names@) + Seq::<Seq<char>>::empty() =~= texts(names@));
    }
    names
}

/// Style `line` for display, with the answers to the lookups of its command
/// names.
pub fn highlight_with(line: &str, answers: &[bool]) -> (r: String)
    ensures
        r@ == styled(line@, answers@),
{
    let chars = chars_of(line);
    let n: usize = chars.len();
    let ghost s = line@;
    let spans = match lex_with_spans(line) {
        Ok(spans) => spans,
        Err(_) => {
            return string_from(chars.as_slice());
        },
    };
    let ghost tokens = span_views(spans@);
    let mut out = String::new();
    // Index of the first character that is not copied yet.
    let mut cursor: usize = 0;
    let mut used: usize = 0;
    let mut expect_command = true;
    let mut k: usize = 0;
    proof {
        law_spans_cover(s);
        assert(tokens.skip(0) =~= tokens);
        assert(answers@.skip(0) =~= answers@);
        assert(out@ + styled_from(s, tokens, answers@, 0, true) =~= styled_from(
            s,
            tokens,
            answers@,
            0,
            true,
        ));
    }
    while k < spans.len()
        invariant
            s == line@,
            s == chars@,
            n == chars@.len(),
            tokens == span_views(spans@),
            k <= spans@.len(),
            cursor <= n,
            used <= answers@.len(),
            covers(s, cursor as int, tokens.skip(k as int)),
            styled_from(s, tokens, answers@, 0, true) == out@ + styled_from(
                s,
                tokens.skip(k as int),
                answers@.skip(used as int),
                cursor as int,
                expect_command,
            ),
        decreases spans.len() - k,
    {
        let (span, token) = &spans[k];
        let ghost rest_tokens = tokens.skip(k as int);
        let ghost rest_answers = answers@.skip(used as int);
        let ghost before = out@;
        let ghost expected = expect_command;
        proof {
            assert(rest_tokens[0] == tokens[k as int]);
            assert(rest_tokens.skip(1) =~= tokens.skip(k + 1));
        }
        // Copy the gap (whitespace) before this token verbatim.
        let gap = string_of(chars.as_slice(), cursor, span.start);
        let text = string_of(chars.as_slice(), span.start, span.end);
        out.append(gap.as_str());
        let color = match token {
            Token::Word(_) => match name_to_look_up(token, expect_command) {
                Some(_) => {
                    let known = used < answers.len() && answers[used];
                    if used < answers.len() {
                        used += 1;
                    }
                    if known {
                        Some(Color::Green)
                    } else {
                        Some(Color::Red)
                    }
                },
                None => None,
            },
            _ => Some(Color::Cyan),
        };
        push_painted(&mut out, text.as_str(), color);
        expect_command = next_expects(token, expect_command);
        cursor = span.end;
        k += 1;
        proof {
            let next_answers = answers_after(token@, expected, rest_answers);
            assert(color == token_color(token@, expected, first_answer(rest_answers)));
            assert(next_answers =~= answers@.skip(used as int));
            let rest = styled_from(
                s,
                tokens.skip(k as int),
                answers@.skip(used as int),
                cursor as int,
                expect_command,
            );
            assert(before + (gap@ + painted(text@, color) + rest) =~= out@ + rest);
        }
    }
    proof {
        assert(tokens.skip(spans@.len() as int) =~= Seq::<SpannedView>::empty());
    }
    let tail = string_of(chars.as_slice(), cursor, n);
    out.append(tail.as_str());
    out
}

/// `f` can answer `answer` when it is asked about `name`.
pub open spec fn answers_to<F: Fn(&str) -> bool>(f: F, name: Seq<char>, answer: bool) -> bool {
    exists|text: &str| text@ == name && #[trigger] f.ensures((text,), answer)
}

/// Style `line` for display: known command (builtin or in PATH) in green,
/// unknown in red, shell operators in cyan. The result has the same display
/// width as `line` — only ANSI wrappers are added, the text itself is never
/// changed. On a lexer error the line is returned unstyled.
pub fn highlight_line<F: Fn(&str) -> bool>(line: &str, command_exists: F) -> (r: String)
    requires
        forall|name: &str| #[trigger] command_exists.requires((name,)),
    ensures
        exists|answers: Seq<bool>|
            {
                &&& answers.len() == line_lookups(line@).len()
                &&& forall|i: int|
                    0 <= i < answers.len() ==> answers_to(
                        command_exists,
                        line_lookups(line@)[i],
                        #[trigger] answers[i],
                    )
                &&& r@ == #[trigger] styled(line@, answers)
            },
{
    let names = names_to_look_up(line);
    let ghost all = texts(names@);
    let mut answers: Vec<bool> = Vec::new();
    let mut i: usize = 0;
    while i < names.len()
        invariant
            all == texts(names@),
            i <= names@.len(),
            answers@.len() == i,
            forall|name: &str| #[trigger] command_exists.requires((name,)),
            forall|k: int|
                0 <= k < i ==> answers_to(command_exists, all[k], #[trigger] answers@[k]),
        decreases names.len() - i,
    {
        let name = names[i].as_str();
        let answer = command_exists(name);
        answers.push(answer);
        proof {
            assert(command_exists.ensures((name,), answer));
            assert(answers_to(command_exists, all[i as int], answer));
        }
        i += 1;
    }
    highlight_with(line, answers.as_slice())
}

// ---------------------------------------------------------------------------
// Laws.

/// The text that a terminal shows of a styled line: everything but the escape
/// sequences, each of which runs up to an `m`.
pub open spec fn shown(s: Seq<char>) -> Seq<char>
    decreases s.len(),
{
    if s.len() == 0 {
        Seq::empty()
    } else if is_escape(s[0]) {
        shown_after_escape(s.skip(1))
    } else {
        seq![s[0]] + shown(s.skip(1))
    }
}

/// The same inside an escape sequence.
pub open spec fn shown_after_escape(s: Seq<char>) -> Seq<char>
    decreases s.len(),
{
    if s.len() == 0 {
        Seq::empty()
    } else if s[0] == 'm' {
        shown(s.skip(1))
    } else {
        shown_after_escape(s.skip(1))
    }
}

/// No terminal escape sequence starts in the text.
pub open spec fn no_escape(s: Seq<char>) -> bool {
    forall|k: int| 0 <= k < s.len() ==> !is_escape(#[trigger] s[k])
}

proof fn lemma_shown_text(text: Seq<char>, rest: Seq<char>)
    requires
        no_escape(text),
    ensures
        shown(text + rest) == text + shown(rest),
    decreases text.len(),
{
    if text.len() == 0 {
        assert(text + rest =~= rest);
        assert(text + shown(rest) =~= shown(rest));
    } else {
        let tail = text.skip(1);
        assert(!is_escape(text[0]));
        assert forall|k: int| 0 <= k < tail.len() implies !is_escape(#[trigger] tail[k]) by {
            assert(!is_escape(text[k + 1]));
        }
        lemma_shown_text(tail, rest);
        assert((text + rest).skip(1) =~= tail + rest);
        assert(seq![text[0]] + (tail + shown(rest)) =~= text + shown(rest));
    }
}

proof fn lemma_shown_code(color: Color, rest: Seq<char>)
    ensures
        shown(color_code(color) + rest) == shown(rest),
        shown(reset_code() + rest) == shown(rest),
{
    let a = color_code(color) + rest;
    assert(a.skip(1).skip(1).skip(1).skip(1).skip(1) =~= rest);
    assert(shown(a) == shown_after_escape(a.skip(1)));
    assert(shown_after_escape(a.skip(1)) == shown_after_escape(a.skip(1).skip(1)));
    assert(shown_after_escape(a.skip(1).skip(1)) == shown_after_escape(
        a.skip(1).skip(1).skip(1),
    ));
    assert(shown_after_escape(a.skip(1).skip(1).skip(1)) == shown_after_escape(
        a.skip(1).skip(1).skip(1).skip(1),
    ));
    let b = reset_code() + rest;
    assert(b.skip(1).skip(1).skip(1).skip(1) =~= rest);
    assert(shown(b) == shown_after_escape(b.skip(1)));
    assert(shown_after_escape(b.skip(1)) == shown_after_escape(b.skip(1).skip(1)));
    assert(shown_after_escape(b.skip(1).skip(1)) == shown_after_escape(
        b.skip(1).skip(1).skip(1),
    ));
}

proof fn lemma_no_escape_part(s: Seq<char>, i: int, k: int)
    requires
        no_escape(s),
        0 <= i <= k <= s.len(),
    ensures
        no_escape(s.subrange(i, k)),
{
    assert forall|j: int| 0 <= j < k - i implies !is_escape(#[trigger] s.subrange(i, k)[j]) by {
        assert(!is_escape(s[i + j]));
    }
}

proof fn lemma_shown_painted(text: Seq<char>, color: Option<Color>, rest: Seq<char>)
    requires
        no_escape(text),
    ensures
        shown(painted(text, color) + rest) == text + shown(rest),
{
    match color {
        Some(color) => {
            let tail = text + (reset_code() + rest);
            assert(painted(text, Some(color)) + rest =~= color_code(color) + tail);
            lemma_shown_code(color, tail);
            lemma_shown_text(text, reset_code() + rest);
            lemma_shown_code(color, rest);
        },
        None => lemma_shown_text(text, rest),
    }
}

proof fn lemma_shown_styled(
    s: Seq<char>,
    tokens: Seq<SpannedView>,
    answers: Seq<bool>,
    cursor: int,
    expect_command: bool,
)
    requires
        no_escape(s),
        0 <= cursor <= s.len(),
        covers(s, cursor, tokens),
    ensures
        shown(styled_from(s, tokens, answers, cursor, expect_command)) == s.subrange(
            cursor,
            s.len() as int,
        ),
    decreases tokens.len(),
{
    let n = s.len() as int;
    if tokens.len() == 0 {
        let tail = s.subrange(cursor, n);
        lemma_no_escape_part(s, cursor, n);
        lemma_shown_text(tail, Seq::empty());
        assert(tail + Seq::<char>::empty() =~= tail);
        assert(tail + shown(Seq::empty()) =~= tail);
    } else {
        let t = tokens[0];
        let rest_answers = answers_after(t.token, expect_command, answers);
        let expected = expects_after(t.token, expect_command);
        let rest = styled_from(s, tokens.skip(1), rest_answers, t.end, expected);
        let color = token_color(t.token, expect_command, first_answer(answers));
        let gap = s.subrange(cursor, t.start);
        let text = s.subrange(t.start, t.end);
        lemma_shown_styled(s, tokens.skip(1), rest_answers, t.end, expected);
        lemma_no_escape_part(s, cursor, t.start);
        lemma_no_escape_part(s, t.start, t.end);
        lemma_shown_painted(text, color, rest);
        lemma_shown_text(gap, painted(text, color) + rest);
        assert(gap + painted(text, color) + rest =~= gap + (painted(text, color) + rest));
        assert(gap + (text + s.subrange(t.end, n)) =~= s.subrange(cursor, n));
    }
}

/// Highlighting never changes the text: a terminal shows of the styled line
/// what it shows of the line, whatever the lookups answer. A line that holds
/// escape sequences of its own is left out: they would be read together with
/// those that are added.
pub proof fn law_highlight_keeps_text(line: Seq<char>, answers: Seq<bool>)
    requires
        no_escape(line),
    ensures
        shown(styled(line, answers)) == line,
{
    law_spans_cover(line);
    match lexed(line) {
        Ok(tokens) => {
            lemma_shown_styled(line, tokens, answers, 0, true);
            assert(line.subrange(0, line.len() as int) =~= line);
        },
        Err(_) => {
            lemma_shown_text(line, Seq::empty());
            assert(line + Seq::<char>::empty() =~= line);
            assert(line + shown(Seq::empty()) =~= line);
        },
    }
}

/// The word at `k` is looked up under `name`, with what is expected there.
pub open spec fn looked_up_at(
    tokens: Seq<SpannedView>,
    k: int,
    expect_command: bool,
    name: Seq<char>,
) -> bool {
    &&& 0 <= k < tokens.len()
    &&& lookup_name(tokens[k].token, expected_from(tokens, k, expect_command)) == Some(name)
}

proof fn lemma_expected_skip(tokens: Seq<SpannedView>, k: int, expect_command: bool)
    requires
        0 <= k < tokens.len(),
    ensures
        expected_from(tokens, k + 1, expect_command) == expected_from(
            tokens.skip(1),
            k,
            expects_after(tokens[0].token, expect_command),
        ),
    decreases k,
{
    if k > 0 {
        lemma_expected_skip(tokens, k - 1, expect_command);
        assert(tokens.skip(1)[k - 1] == tokens[k]);
    } else {
        assert(expected_from(tokens, 0, expect_command) == expect_command);
    }
}

proof fn lemma_lookups(tokens: Seq<SpannedView>, expect_command: bool, name: Seq<char>)
    ensures
        lookups(tokens, expect_command).contains(name) <==> exists|k: int|
            #[trigger] looked_up_at(tokens, k, expect_command, name),
    decreases tokens.len(),
{
    if tokens.len() > 0 {
        let rest = tokens.skip(1);
        let expected = expects_after(tokens[0].token, expect_command);
        let all = lookups(tokens, expect_command);
        let tail = lookups(rest, expected);
        lemma_lookups(rest, expected, name);
        assert(expected_from(tokens, 0, expect_command) == expect_command);
        if all.contains(name) {
            let i = choose|i: int| 0 <= i < all.len() && all[i] == name;
            if lookup_name(tokens[0].token, expect_command) == Some(name) {
                assert(looked_up_at(tokens, 0, expect_command, name));
            } else {
                if lookup_name(tokens[0].token, expect_command) is Some {
                    assert(all[i] == tail[i - 1]);
                } else {
                    assert(all[i] == tail[i]);
                }
                let k = choose|k: int| #[trigger] looked_up_at(rest, k, expected, name);
                lemma_expected_skip(tokens, k, expect_command);
                assert(rest[k] == tokens[k + 1]);
                assert(looked_up_at(tokens, k + 1, expect_command, name));
            }
        }
        if exists|k: int| #[trigger] looked_up_at(tokens, k, expect_command, name) {
            let k = choose|k: int| #[trigger] looked_up_at(tokens, k, expect_command, name);
            if k == 0 {
                assert(all[0] == name);
            } else {
                lemma_expected_skip(tokens, k - 1, expect_command);
                assert(rest[k - 1] == tokens[k]);
                assert(looked_up_at(rest, k - 1, expected, name));
                let i = choose|i: int| 0 <= i < tail.len() && tail[i] == name;
                if lookup_name(tokens[0].token, expect_command) is Some {
                    assert(all[i + 1] == name);
                } else {
                    assert(all[i] == name);
                }
            }
        }
    }
}

/// What is looked up are the literal words in command position, the same
/// position that completion goes by.
pub proof fn law_lookups_are_commands(tokens: Seq<SpannedView>, name: Seq<char>)
    ensures
        lookups(tokens, true).contains(name) <==> exists|k: int|
            #[trigger] looked_up_at(tokens, k, true, name),
{
    lemma_lookups(tokens, true, name);
}

/// The color of a token where what is a command is known: cyan for operators;
/// green or red for a literal word in command position; none for the rest.
pub open spec fn known_color(
    token: TokenView,
    expect_command: bool,
    known: spec_fn(Seq<char>) -> bool,
) -> Option<Color> {
    match lookup_name(token, expect_command) {
        Some(name) => Some(
            if known(name) {
                Color::Green
            } else {
                Color::Red
            },
        ),
        None => if token is Word {
            None
        } else {
            Some(Color::Cyan)
        },
    }
}

/// The token at `k` in its color, with the text between it and the one before
/// it.
pub open spec fn piece_at(
    s: Seq<char>,
    tokens: Seq<SpannedView>,
    cursor: int,
    expect_command: bool,
    known: spec_fn(Seq<char>) -> bool,
    k: int,
) -> Seq<char> {
    let from = if k == 0 {
        cursor
    } else {
        tokens[k - 1].end
    };
    s.subrange(from, tokens[k].start) + painted(
        s.subrange(tokens[k].start, tokens[k].end),
        known_color(tokens[k].token, expected_from(tokens, k, expect_command), known),
    )
}

/// The first `k` tokens in their colors, with the text between them.
pub open spec fn pieces_upto(
    s: Seq<char>,
    tokens: Seq<SpannedView>,
    cursor: int,
    expect_command: bool,
    known: spec_fn(Seq<char>) -> bool,
    k: int,
) -> Seq<char>
    decreases k,
{
    if k <= 0 {
        Seq::empty()
    } else {
        pieces_upto(s, tokens, cursor, expect_command, known, k - 1) + piece_at(
            s,
            tokens,
            cursor,
            expect_command,
            known,
            k - 1,
        )
    }
}

/// The answers that `known` gives to `names`.
pub open spec fn answers_by(
    known: spec_fn(Seq<char>) -> bool,
    names: Seq<Seq<char>>,
) -> Seq<bool> {
    Seq::new(names.len(), |i: int| known(names[i]))
}

proof fn lemma_pieces_skip(
    s: Seq<char>,
    tokens: Seq<SpannedView>,
    cursor: int,
    expect_command: bool,
    known: spec_fn(Seq<char>) -> bool,
    k: int,
)
    requires
        0 <= k < tokens.len(),
    ensures
        pieces_upto(s, tokens, cursor, expect_command, known, k + 1) == piece_at(
            s,
            tokens,
            cursor,
            expect_command,
            known,
            0,
        ) + pieces_upto(
            s,
            tokens.skip(1),
            tokens[0].end,
            expects_after(tokens[0].token, expect_command),
            known,
            k,
        ),
    decreases k,
{
    let rest = tokens.skip(1);
    let expected = expects_after(tokens[0].token, expect_command);
    let first = piece_at(s, tokens, cursor, expect_command, known, 0);
    if k == 0 {
        assert(pieces_upto(s, tokens, cursor, expect_command, known, 0) =~= Seq::empty());
        assert(Seq::empty() + first =~= first);
        assert(first + Seq::empty() =~= first);
        assert(pieces_upto(s, tokens, cursor, expect_command, known, 1) =~= first);
        assert(pieces_upto(s, rest, tokens[0].end, expected, known, 0) =~= Seq::empty());
    } else {
        lemma_pieces_skip(s, tokens, cursor, expect_command, known, k - 1);
        lemma_expected_skip(tokens, k - 1, expect_command);
        assert(rest[k - 1] == tokens[k]);
        if k > 1 {
            assert(rest[k - 2] == tokens[k - 1]);
        }
        let here = piece_at(s, tokens, cursor, expect_command, known, k);
        assert(here == piece_at(s, rest, tokens[0].end, expected, known, k - 1));
        let inner = pieces_upto(s, rest, tokens[0].end, expected, known, k - 1);
        assert((first + inner) + here =~= first + (inner + here));
    }
}

proof fn lemma_styled_pieces(
    s: Seq<char>,
    tokens: Seq<SpannedView>,
    cursor: int,
    expect_command: bool,
    known: spec_fn(Seq<char>) -> bool,
)
    ensures
        styled_from(
            s,
            tokens,
            answers_by(known, lookups(tokens, expect_command)),
            cursor,
            expect_command,
        ) == pieces_upto(
            s,
            tokens,
            cursor,
            expect_command,
            known,
            tokens.len() as int,
        ) + s.subrange(
            if tokens.len() == 0 {
                cursor
            } else {
                tokens.last().end
            },
            s.len() as int,
        ),
    decreases tokens.len(),
{
    let names = lookups(tokens, expect_command);
    let answers = answers_by(known, names);
    if tokens.len() == 0 {
        let tail = s.subrange(cursor, s.len() as int);
        assert(Seq::empty() + tail =~= tail);
    } else {
        let t = tokens[0];
        let rest = tokens.skip(1);
        let expected = expects_after(t.token, expect_command);
        let rest_names = lookups(rest, expected);
        lemma_styled_pieces(s, rest, t.end, expected, known);
        lemma_pieces_skip(s, tokens, cursor, expect_command, known, tokens.len() - 1);
        match lookup_name(t.token, expect_command) {
            Some(name) => {
                assert(names == seq![name] + rest_names);
                assert(names[0] == name);
                assert(answers.skip(1) =~= answers_by(known, rest_names)) by {
                    assert forall|i: int| 0 <= i < rest_names.len() implies names[i + 1]
                        == rest_names[i] by {}
                }
            },
            None => {
                assert(answers =~= answers_by(known, rest_names));
            },
        }
        assert(answers_after(t.token, expect_command, answers) == answers_by(known, rest_names));
        assert(expected_from(tokens, 0, expect_command) == expect_command);
        let color = token_color(t.token, expect_command, first_answer(answers));
        assert(color == known_color(t.token, expect_command, known));
        let first = piece_at(s, tokens, cursor, expect_command, known, 0);
        let more = pieces_upto(s, rest, t.end, expected, known, tokens.len() - 1);
        if rest.len() > 0 {
            assert(rest.last() == tokens.last());
        }
        let tail = s.subrange(tokens.last().end, s.len() as int);
        assert(first + (more + tail) =~= (first + more) + tail);
    }
}

/// Highlighting only puts color codes around tokens: a line that does not lex
/// is left as it is; in any other, operators are cyan, literal words in command
/// position green or red by whether the command is known, and everything else
/// is copied. The spans of the tokens are in order and lie in the line, so
/// nothing is added, dropped or moved besides.
pub proof fn law_highlight_only_adds_colors(line: Seq<char>, known: spec_fn(Seq<char>) -> bool)
    ensures
        ({
            let shown = styled(line, answers_by(known, line_lookups(line)));
            match lexed(line) {
                Err(_) => shown == line,
                Ok(tokens) => {
                    &&& covers(line, 0, tokens)
                    &&& shown == pieces_upto(
                        line,
                        tokens,
                        0,
                        true,
                        known,
                        tokens.len() as int,
                    ) + line.subrange(
                        if tokens.len() == 0 {
                            0
                        } else {
                            tokens.last().end
                        },
                        line.len() as int,
                    )
                },
            }
        }),
{
    law_spans_cover(line);
    if let Ok(tokens) = lexed(line) {
        lemma_styled_pieces(line, tokens, 0, true, known);
    }
}

/// The parts of a literal word with these texts, the quoted ones in quotes.
pub open spec fn literal_parts(pieces: Seq<Seq<char>>, quoted: Seq<bool>) -> Seq<PartView> {
    Seq::new(
        pieces.len(),
        |k: int|
            if quoted[k] {
                PartView::QLit(pieces[k])
            } else {
                PartView::Lit(pieces[k])
            },
    )
}

proof fn lemma_literal_text(pieces: Seq<Seq<char>>, quoted: Seq<bool>)
    requires
        pieces.len() == quoted.len(),
    ensures
        literal_text(literal_parts(pieces, quoted)) == Some(pieces.flatten()),
    decreases pieces.len(),
{
    let parts = literal_parts(pieces, quoted);
    if pieces.len() == 0 {
        assert(pieces.flatten() =~= Seq::<char>::empty());
    } else {
        lemma_literal_text(pieces.drop_last(), quoted.drop_last());
        assert(parts.drop_last() =~= literal_parts(pieces.drop_last(), quoted.drop_last()));
        pieces.lemma_flatten_and_flatten_alt_are_equivalent();
        pieces.drop_last().lemma_flatten_and_flatten_alt_are_equivalent();
        assert(pieces.flatten_alt() == pieces.drop_last().flatten_alt() + pieces.last());
    }
}

proof fn lemma_no_literal_text(parts: Seq<PartView>, k: int)
    requires
        0 <= k < parts.len(),
        !(parts[k] is Lit),
        !(parts[k] is QLit),
    ensures
        literal_text(parts) is None,
    decreases parts.len(),
{
    if k < parts.len() - 1 {
        lemma_no_literal_text(parts.drop_last(), k);
    }
}

/// Operators are cyan. The first word of a command is green where the command
/// is known and red where it is not, and it is looked up under its text without
/// the quotes; a word with a variable or any other part to be expanded, and an
/// argument, stay as they are.
pub proof fn law_token_colors(
    s: Seq<char>,
    t: SpannedView,
    known: bool,
    pieces: Seq<Seq<char>>,
    quoted: Seq<bool>,
    k: int,
)
    requires
        0 <= t.start <= t.end <= s.len(),
        pieces.len() == quoted.len(),
    ensures
        ({
            let text = s.subrange(t.start, t.end);
            let rest = s.subrange(t.end, s.len() as int);
            let plain = seq!['\u{1b}', '[', '0', 'm'];
            let first = styled_from(s, seq![t], seq![known], t.start, true);
            let later = styled_from(s, seq![t], seq![known], t.start, false);
            &&& !(t.token is Word) ==> {
                &&& first == seq!['\u{1b}', '[', '3', '6', 'm'] + text + plain + rest
                &&& later == first
                &&& lookups(seq![t], true) == Seq::<Seq<char>>::empty()
            }
            &&& t.token is Word ==> later == text + rest && lookups(seq![t], false) == Seq::<
                Seq<char>,
            >::empty()
            &&& t.token == TokenView::Word(literal_parts(pieces, quoted)) ==> {
                &&& first == seq![
                    '\u{1b}',
                    '[',
                    '3',
                    if known {
                        '2'
                    } else {
                        '1'
                    },
                    'm',
                ] + text + plain + rest
                &&& lookups(seq![t], true) == seq![pieces.flatten()]
            }
            &&& t.token matches TokenView::Word(parts) ==> 0 <= k < parts.len() && !(
            parts[k] is Lit) && !(parts[k] is QLit) ==> first == text + rest && lookups(
                seq![t],
                true,
            ) == Seq::<Seq<char>>::empty()
        }),
{
    let text = s.subrange(t.start, t.end);
    let rest = s.subrange(t.end, s.len() as int);
    let tokens = seq![t];
    let none = tokens.skip(1);
    assert(none =~= Seq::<SpannedView>::empty());
    assert(s.subrange(t.start, t.start) =~= Seq::<char>::empty());
    assert(Seq::<char>::empty() + text =~= text);
    lemma_literal_text(pieces, quoted);
    if let TokenView::Word(parts) = t.token {
        if 0 <= k < parts.len() && !(parts[k] is Lit) && !(parts[k] is QLit) {
            lemma_no_literal_text(parts, k);
        }
    }
    let answers = seq![known];
    assert(styled_from(
        s,
        none,
        answers_after(t.token, true, answers),
        t.end,
        expects_after(t.token, true),
    ) == rest);
    assert(styled_from(
        s,
        none,
        answers_after(t.token, false, answers),
        t.end,
        expects_after(t.token, false),
    ) == rest);
    let first = painted(text, token_color(t.token, true, known));
    let later = painted(text, token_color(t.token, false, known));
    let empty = s.subrange(t.start, t.start);
    assert(empty + first =~= first);
    assert(empty + later =~= later);
    assert(styled_from(s, tokens, seq![known], t.start, true) == first + rest);
    assert(styled_from(s, tokens, seq![known], t.start, false) == later + rest);
    assert(lookups(none, expects_after(t.token, true)) == Seq::<Seq<char>>::empty());
    assert(lookups(none, expects_after(t.token, false)) == Seq::<Seq<char>>::empty());
    if t.token == TokenView::Word(literal_parts(pieces, quoted)) {
        assert(seq![pieces.flatten()] + Seq::<Seq<char>>::empty() =~= seq![pieces.flatten()]);
    }
}

/// In a line, a literal word at its start or right behind `|`, `;`, `&&`, `||`
/// or `&` is looked up and shown green or red; a word right behind another word
/// is shown as it is. Redirect operators before the word (those from token `j`
/// on) make no difference.
pub proof fn law_commands_are_colored(
    s: Seq<char>,
    tokens: Seq<SpannedView>,
    j: int,
    k: int,
    known: spec_fn(Seq<char>) -> bool,
    pieces: Seq<Seq<char>>,
    quoted: Seq<bool>,
)
    requires
        0 <= j <= k < tokens.len(),
        forall|i: int| j <= i < k ==> is_redirect((#[trigger] tokens[i]).token),
        pieces.len() == quoted.len(),
        tokens[k].token == TokenView::Word(literal_parts(pieces, quoted)),
    ensures
        ({
            let from = if k == 0 {
                0
            } else {
                tokens[k - 1].end
            };
            let gap = s.subrange(from, tokens[k].start);
            let text = s.subrange(tokens[k].start, tokens[k].end);
            let shown = piece_at(s, tokens, 0, true, known, k);
            let name = pieces.flatten();
            let colored = gap + (seq![
                '\u{1b}',
                '[',
                '3',
                if known(name) {
                    '2'
                } else {
                    '1'
                },
                'm',
            ] + text + seq!['\u{1b}', '[', '0', 'm']);
            &&& j == 0 ==> shown == colored && looked_up_at(tokens, k, true, name)
            &&& j > 0 ==> match tokens[j - 1].token {
                TokenView::Pipe => shown == colored && looked_up_at(tokens, k, true, name),
                TokenView::Semi => shown == colored && looked_up_at(tokens, k, true, name),
                TokenView::And => shown == colored && looked_up_at(tokens, k, true, name),
                TokenView::Or => shown == colored && looked_up_at(tokens, k, true, name),
                TokenView::Amp => shown == colored && looked_up_at(tokens, k, true, name),
                TokenView::Word(_) => shown == gap + text && !looked_up_at(tokens, k, true, name),
                _ => true,
            }
        }),
{
    law_commands_are_expected(tokens, j, k);
    lemma_literal_text(pieces, quoted);
}

} // verus!
