//! Lines joined by `;`: what they mean together is what they mean one after
//! the other.

use vstd::prelude::*;

use crate::lexer::{
    at, bare_tokens, close_paren, find_char, is_operator_char, lemma_close_paren, lemma_find_char,
    lemma_name_end, lemma_scan_double, lemma_token_at, lexed, name_end, prepend_tokens,
    quoted_run, scan_double, scan_word, token_at, tokens_from, var_at, ParseError, SpannedView, TokenView,
};
use crate::parser::{
    and_or_at, and_or_more, command_at, command_items, connector_at, goes_on, item_at,
    lemma_command_at, lemma_item_at, lemma_pipeline_at, lemma_semi_script, no_command, parsed,
    parsed_tokens, pipeline_at, pipeline_more, script_from, target_at, AndOrView, CommandView,
    Connector, PipelineView, RedirectView, ScriptView,
};
use crate::text::is_white_space;

verus! {

// ---------------------------------------------------------------------------
// Tokens further on.

/// `w` stands in `u` from `off` to the end.
pub open spec fn stands_at<T>(w: Seq<T>, u: Seq<T>, off: int) -> bool {
    &&& 0 <= off
    &&& u.len() == off + w.len()
    &&& forall|k: int| 0 <= k < w.len() ==> #[trigger] w[k] == u[off + k]
}

/// What was read, `off` further on.
pub open spec fn moved<T>(r: Result<(T, int), ParseError>, off: int) -> Result<
    (T, int),
    ParseError,
> {
    match r {
        Ok((x, end)) => Ok((x, end + off)),
        Err(e) => Err(e),
    }
}

proof fn lemma_move_items(w: Seq<TokenView>, u: Seq<TokenView>, off: int, i: int, cmd: CommandView)
    requires
        stands_at(w, u, off),
        0 <= i <= w.len(),
    ensures
        command_items(u, off + i, cmd) == moved(command_items(w, i, cmd), off),
    decreases w.len() - i,
{
    if i < w.len() {
        assert(w[i] == u[off + i]);
        assert(target_at(u, off + i + 1) == target_at(w, i + 1)) by {
            if i + 1 < w.len() {
                assert(w[i + 1] == u[off + (i + 1)]);
            }
        }
        match w[i] {
            TokenView::Word(parts) => lemma_move_items(
                w,
                u,
                off,
                i + 1,
                CommandView { argv: cmd.argv.push(parts), ..cmd },
            ),
            TokenView::Out { append } => if let Ok(target) = target_at(w, i + 1) {
                lemma_move_items(
                    w,
                    u,
                    off,
                    i + 2,
                    CommandView {
                        redirects: cmd.redirects.push(RedirectView::Out { target, append }),
                        ..cmd
                    },
                );
            },
            TokenView::ErrOut { append } => if let Ok(target) = target_at(w, i + 1) {
                lemma_move_items(
                    w,
                    u,
                    off,
                    i + 2,
                    CommandView {
                        redirects: cmd.redirects.push(RedirectView::ErrOut { target, append }),
                        ..cmd
                    },
                );
            },
            TokenView::In => if let Ok(target) = target_at(w, i + 1) {
                lemma_move_items(
                    w,
                    u,
                    off,
                    i + 2,
                    CommandView { redirects: cmd.redirects.push(RedirectView::In(target)), ..cmd },
                );
            },
            _ => {},
        }
    }
}

proof fn lemma_move_pipeline_more(
    w: Seq<TokenView>,
    u: Seq<TokenView>,
    off: int,
    i: int,
    cmds: Seq<CommandView>,
)
    requires
        stands_at(w, u, off),
        0 <= i <= w.len(),
    ensures
        pipeline_more(u, off + i, cmds) == moved(pipeline_more(w, i, cmds), off),
    decreases w.len() - i,
{
    if i < w.len() {
        assert(w[i] == u[off + i]);
    }
    if i < w.len() && w[i] is Pipe {
        lemma_move_items(w, u, off, i + 1, no_command());
        lemma_command_at(w, i + 1);
        if let Ok((cmd, end)) = command_at(w, i + 1) {
            lemma_move_pipeline_more(w, u, off, end, cmds.push(cmd));
        }
    }
}

proof fn lemma_move_pipeline(w: Seq<TokenView>, u: Seq<TokenView>, off: int, i: int)
    requires
        stands_at(w, u, off),
        0 <= i <= w.len(),
    ensures
        pipeline_at(u, off + i) == moved(pipeline_at(w, i), off),
{
    lemma_move_items(w, u, off, i, no_command());
    lemma_command_at(w, i);
    if let Ok((cmd, end)) = command_at(w, i) {
        lemma_move_pipeline_more(w, u, off, end, seq![cmd]);
    }
}

proof fn lemma_move_and_or_more(
    w: Seq<TokenView>,
    u: Seq<TokenView>,
    off: int,
    i: int,
    rest: Seq<(Connector, PipelineView)>,
)
    requires
        stands_at(w, u, off),
        0 <= i <= w.len(),
    ensures
        and_or_more(u, off + i, rest) == moved(and_or_more(w, i, rest), off),
    decreases w.len() - i,
{
    assert(connector_at(u, off + i) == connector_at(w, i)) by {
        if i < w.len() {
            assert(w[i] == u[off + i]);
        }
    }
    if let Some(connector) = connector_at(w, i) {
        lemma_move_pipeline(w, u, off, i + 1);
        lemma_pipeline_at(w, i + 1);
        if let Ok((pipeline, end)) = pipeline_at(w, i + 1) {
            lemma_move_and_or_more(w, u, off, end, rest.push((connector, pipeline)));
        }
    }
}

proof fn lemma_move_item(w: Seq<TokenView>, u: Seq<TokenView>, off: int, i: int)
    requires
        stands_at(w, u, off),
        0 <= i <= w.len(),
    ensures
        item_at(u, off + i) == moved(item_at(w, i), off),
{
    lemma_move_pipeline(w, u, off, i);
    lemma_pipeline_at(w, i);
    if let Ok((_, end)) = pipeline_at(w, i) {
        lemma_move_and_or_more(w, u, off, end, Seq::empty());
    }
    lemma_item_at(w, i);
    if let Ok((_, end)) = and_or_at(w, i) {
        if end < w.len() {
            assert(w[end] == u[off + end]);
            if end + 1 < w.len() {
                assert(w[end + 1] == u[off + (end + 1)]);
            }
        }
    }
}

proof fn lemma_move_script(
    w: Seq<TokenView>,
    u: Seq<TokenView>,
    off: int,
    i: int,
    before: Seq<AndOrView>,
    done: Seq<AndOrView>,
)
    requires
        stands_at(w, u, off),
        0 <= i <= w.len(),
    ensures
        script_from(u, off + i, before + done) == match script_from(w, i, done) {
            Ok(script) => Ok(ScriptView { seq: before + script.seq }),
            Err(e) => Err(e),
        },
    decreases w.len() - i,
{
    if i < w.len() {
        assert(w[i] == u[off + i]);
        if w[i] is Semi {
            lemma_move_script(w, u, off, i + 1, before, done);
        } else if !(w[i] is Amp) {
            lemma_move_item(w, u, off, i);
            lemma_item_at(w, i);
            if let Ok((chain, end)) = item_at(w, i) {
                assert(before + done.push(chain) =~= (before + done).push(chain));
                lemma_move_script(w, u, off, end, before, done.push(chain));
            }
        }
    }
}

/// Token lists joined by a `;` mean what they mean one after the other; the
/// first one that is wrong is what is wrong with both.
pub proof fn law_token_lists_join(t: Seq<TokenView>, w: Seq<TokenView>)
    ensures
        parsed_tokens(t + seq![TokenView::Semi] + w) == match (parsed_tokens(t), parsed_tokens(w)) {
            (Ok(a), Ok(b)) => Ok(ScriptView { seq: a.seq + b.seq }),
            (Ok(_), Err(e)) => Err(e),
            (Err(e), _) => Err(e),
        },
{
    let u = t + seq![TokenView::Semi] + w;
    let off = t.len() as int + 1;
    assert(goes_on(t, u));
    assert(stands_at(w, u, off));
    lemma_semi_script(t, u, 0, Seq::empty());
    if let Ok(a) = parsed_tokens(t) {
        assert(a.seq + Seq::<AndOrView>::empty() =~= a.seq);
        lemma_move_script(w, u, off, 0, a.seq, Seq::empty());
    }
}

// ---------------------------------------------------------------------------
// Characters before a `;` or white space.

/// `u` goes on after `a` with a `;` or with white space.
pub open spec fn text_goes_on(a: Seq<char>, u: Seq<char>) -> bool {
    &&& a.len() < u.len()
    &&& forall|k: int| 0 <= k < a.len() ==> #[trigger] u[k] == a[k]
    &&& u[a.len() as int] == ';' || is_white_space(u[a.len() as int])
}

proof fn lemma_keep_find(a: Seq<char>, u: Seq<char>, i: int, c: char)
    requires
        text_goes_on(a, u),
        0 <= i,
    ensures
        find_char(a, i, c) matches Some(k) ==> find_char(u, i, c) == Some(k),
    decreases a.len() - i,
{
    if i < a.len() {
        assert(u[i] == a[i]);
        if a[i] != c {
            lemma_keep_find(a, u, i + 1, c);
        }
    }
}

proof fn lemma_keep_name(a: Seq<char>, u: Seq<char>, i: int)
    requires
        text_goes_on(a, u),
        0 <= i <= a.len(),
    ensures
        name_end(u, i) == name_end(a, i),
    decreases a.len() - i,
{
    if i < a.len() {
        assert(u[i] == a[i]);
        lemma_keep_name(a, u, i + 1);
    }
}

proof fn lemma_keep_part(a: Seq<char>, u: Seq<char>, i: int, k: int)
    requires
        text_goes_on(a, u),
        0 <= i <= k <= a.len(),
    ensures
        u.subrange(i, k) == a.subrange(i, k),
{
    assert(u.subrange(i, k) =~= a.subrange(i, k));
}

proof fn lemma_keep_at(a: Seq<char>, u: Seq<char>, i: int, c: char)
    requires
        text_goes_on(a, u),
        0 <= i <= a.len(),
        c != ';',
        !is_white_space(c),
    ensures
        at(u, i, c) == at(a, i, c),
{
    if i < a.len() {
        assert(u[i] == a[i]);
    }
}

proof fn lemma_keep_var(a: Seq<char>, u: Seq<char>, i: int)
    requires
        text_goes_on(a, u),
        0 <= i <= a.len(),
    ensures
        var_at(u, i) == var_at(a, i),
{
    lemma_keep_at(a, u, i, '?');
    lemma_keep_name(a, u, i);
    lemma_name_end(a, i);
    lemma_keep_part(a, u, i, name_end(a, i));
    if i < a.len() {
        assert(u[i] == a[i]);
    }
}

proof fn lemma_keep_close(a: Seq<char>, u: Seq<char>, i: int, depth: nat)
    requires
        text_goes_on(a, u),
        0 <= i,
    ensures
        close_paren(a, i, depth) matches Ok(k) ==> close_paren(u, i, depth) == Ok::<
            int,
            ParseError,
        >(k),
    decreases a.len() - i,
{
    if i < a.len() {
        assert(u[i] == a[i]);
        if a[i] == '(' {
            lemma_keep_close(a, u, i + 1, depth + 1);
        } else if a[i] == ')' {
            if depth > 1 {
                lemma_keep_close(a, u, i + 1, (depth - 1) as nat);
            }
        } else if a[i] == '\'' || a[i] == '"' {
            lemma_find_char(a, i + 1, a[i]);
            lemma_keep_find(a, u, i + 1, a[i]);
            if let Some(k) = find_char(a, i + 1, a[i]) {
                lemma_keep_close(a, u, k + 1, depth);
            }
        } else {
            lemma_keep_close(a, u, i + 1, depth);
        }
    }
}

proof fn lemma_keep_quoted(a: Seq<char>, u: Seq<char>, i: int, k: int)
    requires
        text_goes_on(a, u),
        0 <= i,
        k <= a.len(),
    ensures
        quoted_run(u, i, k) == quoted_run(a, i, k),
    decreases k - i,
{
    if i < k {
        lemma_keep_quoted(a, u, i, k - 1);
        assert(u[k - 1] == a[k - 1]);
    }
}

proof fn lemma_keep_double(a: Seq<char>, u: Seq<char>, i: int)
    requires
        text_goes_on(a, u),
        0 <= i,
    ensures
        scan_double(a, i) is Ok ==> scan_double(u, i) == scan_double(a, i),
    decreases a.len() - i,
{
    if i < a.len() {
        assert(u[i] == a[i]);
        if a[i] == '"' {
        } else if a[i] == '\\' {
            if i + 1 < a.len() {
                assert(u[i + 1] == a[i + 1]);
                lemma_keep_double(a, u, i + 2);
                lemma_keep_double(a, u, i + 1);
            }
        } else if a[i] == '$' {
            lemma_keep_at(a, u, i + 1, '(');
            if at(a, i + 1, '(') {
                lemma_keep_close(a, u, i + 2, 1);
                lemma_close_paren(a, i + 2, 1);
                if let Ok(k) = close_paren(a, i + 2, 1) {
                    lemma_keep_part(a, u, i + 2, k);
                    lemma_keep_double(a, u, k + 1);
                }
            } else {
                lemma_keep_var(a, u, i + 1);
                lemma_name_end(a, i + 1);
                lemma_keep_double(a, u, var_at(a, i + 1).1);
            }
        } else {
            lemma_keep_double(a, u, i + 1);
        }
    }
}

proof fn lemma_keep_word(a: Seq<char>, u: Seq<char>, i: int, start: int)
    requires
        text_goes_on(a, u),
        0 <= i <= a.len(),
    ensures
        scan_word(a, i, start) is Ok ==> scan_word(u, i, start) == scan_word(a, i, start),
    decreases a.len() - i,
{
    if i < a.len() {
        assert(u[i] == a[i]);
        if is_white_space(a[i]) || is_operator_char(a[i]) {
        } else if a[i] == '\\' {
            if i + 1 < a.len() {
                assert(u[i + 1] == a[i + 1]);
                lemma_keep_word(a, u, i + 2, start);
            }
        } else if a[i] == '\'' {
            lemma_find_char(a, i + 1, '\'');
            lemma_keep_find(a, u, i + 1, '\'');
            if let Some(k) = find_char(a, i + 1, '\'') {
                lemma_keep_quoted(a, u, i + 1, k);
                lemma_keep_word(a, u, k + 1, start);
            }
        } else if a[i] == '"' {
            lemma_scan_double(a, i + 1);
            lemma_keep_double(a, u, i + 1);
            if let Ok((_, end)) = scan_double(a, i + 1) {
                lemma_keep_word(a, u, end, start);
            }
        } else if a[i] == '$' {
            lemma_keep_at(a, u, i + 1, '(');
            if at(a, i + 1, '(') {
                lemma_keep_close(a, u, i + 2, 1);
                lemma_close_paren(a, i + 2, 1);
                if let Ok(k) = close_paren(a, i + 2, 1) {
                    lemma_keep_part(a, u, i + 2, k);
                    lemma_keep_word(a, u, k + 1, start);
                }
            } else {
                lemma_keep_var(a, u, i + 1);
                lemma_name_end(a, i + 1);
                lemma_keep_word(a, u, var_at(a, i + 1).1, start);
            }
        } else {
            lemma_keep_word(a, u, i + 1, start);
        }
    }
}

proof fn lemma_keep_token(a: Seq<char>, u: Seq<char>, i: int)
    requires
        text_goes_on(a, u),
        0 <= i < a.len(),
    ensures
        token_at(a, i) is Ok ==> token_at(u, i) == token_at(a, i),
{
    assert(u[i] == a[i]);
    lemma_keep_at(a, u, i + 1, '|');
    lemma_keep_at(a, u, i + 1, '&');
    lemma_keep_at(a, u, i + 1, '>');
    if i + 2 <= a.len() {
        lemma_keep_at(a, u, i + 2, '>');
    }
    lemma_keep_word(a, u, i, i);
}

pub proof fn lemma_keep_tokens(a: Seq<char>, u: Seq<char>, i: int)
    requires
        text_goes_on(a, u),
        0 <= i <= a.len(),
    ensures
        tokens_from(a, i) matches Ok(tokens) ==> tokens_from(u, i) == prepend_tokens(
            tokens,
            tokens_from(u, a.len() as int),
        ),
    decreases a.len() - i,
{
    let rest = tokens_from(u, a.len() as int);
    if i == a.len() {
        if let Ok(more) = rest {
            assert(Seq::<SpannedView>::empty() + more =~= more);
        }
    } else {
        assert(u[i] == a[i]);
        if is_white_space(a[i]) {
            lemma_keep_tokens(a, u, i + 1);
        } else {
            lemma_keep_token(a, u, i);
            lemma_token_at(a, i);
            if let Ok((token, end)) = token_at(a, i) {
                lemma_keep_tokens(a, u, end);
                if let (Ok(tokens), Ok(more)) = (tokens_from(a, end), rest) {
                    let here = seq![SpannedView { start: i, end, token }];
                    assert(here + (tokens + more) =~= (here + tokens) + more);
                }
            }
        }
    }
}

// ---------------------------------------------------------------------------
// Characters further on.

proof fn lemma_move_find(b: Seq<char>, u: Seq<char>, off: int, i: int, c: char)
    requires
        stands_at(b, u, off),
        0 <= i,
    ensures
        find_char(u, off + i, c) == match find_char(b, i, c) {
            Some(k) => Some(k + off),
            None => None,
        },
    decreases b.len() - i,
{
    if i < b.len() {
        assert(b[i] == u[off + i]);
        if b[i] != c {
            lemma_move_find(b, u, off, i + 1, c);
        }
    }
}

proof fn lemma_move_name(b: Seq<char>, u: Seq<char>, off: int, i: int)
    requires
        stands_at(b, u, off),
        0 <= i,
    ensures
        name_end(u, off + i) == off + name_end(b, i),
    decreases b.len() - i,
{
    if i < b.len() {
        assert(b[i] == u[off + i]);
        lemma_move_name(b, u, off, i + 1);
    }
}

proof fn lemma_move_part(b: Seq<char>, u: Seq<char>, off: int, i: int, k: int)
    requires
        stands_at(b, u, off),
        0 <= i <= k <= b.len(),
    ensures
        u.subrange(off + i, off + k) == b.subrange(i, k),
{
    assert forall|j: int| 0 <= j < k - i implies u.subrange(off + i, off + k)[j] == b.subrange(
        i,
        k,
    )[j] by {
        assert(b[i + j] == u[off + (i + j)]);
    }
    assert(u.subrange(off + i, off + k) =~= b.subrange(i, k));
}

proof fn lemma_move_at(b: Seq<char>, u: Seq<char>, off: int, i: int, c: char)
    requires
        stands_at(b, u, off),
        0 <= i,
    ensures
        at(u, off + i, c) == at(b, i, c),
{
    if i < b.len() {
        assert(b[i] == u[off + i]);
    }
}

proof fn lemma_move_var(b: Seq<char>, u: Seq<char>, off: int, i: int)
    requires
        stands_at(b, u, off),
        0 <= i <= b.len(),
    ensures
        var_at(u, off + i).0 == var_at(b, i).0,
        var_at(u, off + i).1 == var_at(b, i).1 + off,
{
    lemma_move_at(b, u, off, i, '?');
    lemma_move_name(b, u, off, i);
    lemma_name_end(b, i);
    lemma_move_part(b, u, off, i, name_end(b, i));
    if i < b.len() {
        assert(b[i] == u[off + i]);
    }
}

proof fn lemma_move_close(b: Seq<char>, u: Seq<char>, off: int, i: int, depth: nat)
    requires
        stands_at(b, u, off),
        0 <= i,
    ensures
        close_paren(u, off + i, depth) == match close_paren(b, i, depth) {
            Ok(k) => Ok(k + off),
            Err(e) => Err(e),
        },
    decreases b.len() - i,
{
    if i < b.len() {
        assert(b[i] == u[off + i]);
        if b[i] == '(' {
            lemma_move_close(b, u, off, i + 1, depth + 1);
        } else if b[i] == ')' {
            if depth > 1 {
                lemma_move_close(b, u, off, i + 1, (depth - 1) as nat);
            }
        } else if b[i] == '\'' || b[i] == '"' {
            lemma_find_char(b, i + 1, b[i]);
            lemma_move_find(b, u, off, i + 1, b[i]);
            if let Some(k) = find_char(b, i + 1, b[i]) {
                lemma_move_close(b, u, off, k + 1, depth);
            }
        } else {
            lemma_move_close(b, u, off, i + 1, depth);
        }
    }
}

proof fn lemma_move_quoted(b: Seq<char>, u: Seq<char>, off: int, i: int, k: int)
    requires
        stands_at(b, u, off),
        0 <= i,
        k <= b.len(),
    ensures
        quoted_run(u, off + i, off + k) == quoted_run(b, i, k),
    decreases k - i,
{
    if i < k {
        lemma_move_quoted(b, u, off, i, k - 1);
        assert(b[k - 1] == u[off + (k - 1)]);
    }
}

proof fn lemma_move_double(b: Seq<char>, u: Seq<char>, off: int, i: int)
    requires
        stands_at(b, u, off),
        0 <= i,
    ensures
        scan_double(u, off + i) == moved(scan_double(b, i), off),
    decreases b.len() - i,
{
    if i < b.len() {
        assert(b[i] == u[off + i]);
        if b[i] == '"' {
        } else if b[i] == '\\' {
            if i + 1 < b.len() {
                assert(b[i + 1] == u[off + (i + 1)]);
                lemma_move_double(b, u, off, i + 2);
                lemma_move_double(b, u, off, i + 1);
            }
        } else if b[i] == '$' {
            lemma_move_at(b, u, off, i + 1, '(');
            if at(b, i + 1, '(') {
                lemma_move_close(b, u, off, i + 2, 1);
                lemma_close_paren(b, i + 2, 1);
                if let Ok(k) = close_paren(b, i + 2, 1) {
                    lemma_move_part(b, u, off, i + 2, k);
                    lemma_move_double(b, u, off, k + 1);
                }
            } else {
                lemma_move_var(b, u, off, i + 1);
                lemma_name_end(b, i + 1);
                lemma_move_double(b, u, off, var_at(b, i + 1).1);
            }
        } else {
            lemma_move_double(b, u, off, i + 1);
        }
    }
}

proof fn lemma_move_word(b: Seq<char>, u: Seq<char>, off: int, i: int, start: int)
    requires
        stands_at(b, u, off),
        0 <= i <= b.len(),
    ensures
        scan_word(u, off + i, off + start) == moved(scan_word(b, i, start), off),
    decreases b.len() - i,
{
    if i < b.len() {
        assert(b[i] == u[off + i]);
        if is_white_space(b[i]) || is_operator_char(b[i]) {
        } else if b[i] == '\\' {
            if i + 1 < b.len() {
                assert(b[i + 1] == u[off + (i + 1)]);
                lemma_move_word(b, u, off, i + 2, start);
            }
        } else if b[i] == '\'' {
            lemma_find_char(b, i + 1, '\'');
            lemma_move_find(b, u, off, i + 1, '\'');
            if let Some(k) = find_char(b, i + 1, '\'') {
                lemma_move_quoted(b, u, off, i + 1, k);
                lemma_move_word(b, u, off, k + 1, start);
            }
        } else if b[i] == '"' {
            lemma_scan_double(b, i + 1);
            lemma_move_double(b, u, off, i + 1);
            if let Ok((_, end)) = scan_double(b, i + 1) {
                lemma_move_word(b, u, off, end, start);
            }
        } else if b[i] == '$' {
            lemma_move_at(b, u, off, i + 1, '(');
            if at(b, i + 1, '(') {
                lemma_move_close(b, u, off, i + 2, 1);
                lemma_close_paren(b, i + 2, 1);
                if let Ok(k) = close_paren(b, i + 2, 1) {
                    lemma_move_part(b, u, off, i + 2, k);
                    lemma_move_word(b, u, off, k + 1, start);
                }
            } else {
                lemma_move_var(b, u, off, i + 1);
                lemma_name_end(b, i + 1);
                lemma_move_word(b, u, off, var_at(b, i + 1).1, start);
            }
        } else {
            lemma_move_word(b, u, off, i + 1, start);
        }
    }
}

proof fn lemma_move_token(b: Seq<char>, u: Seq<char>, off: int, i: int)
    requires
        stands_at(b, u, off),
        0 <= i < b.len(),
    ensures
        token_at(u, off + i) == moved(token_at(b, i), off),
{
    assert(b[i] == u[off + i]);
    lemma_move_at(b, u, off, i + 1, '|');
    lemma_move_at(b, u, off, i + 1, '&');
    lemma_move_at(b, u, off, i + 1, '>');
    lemma_move_at(b, u, off, i + 2, '>');
    lemma_move_word(b, u, off, i, i);
}

/// The tokens, `off` characters further on.
pub open spec fn moved_tokens(tokens: Seq<SpannedView>, off: int) -> Seq<SpannedView> {
    Seq::new(
        tokens.len(),
        |k: int|
            SpannedView {
                start: tokens[k].start + off,
                end: tokens[k].end + off,
                token: tokens[k].token,
            },
    )
}

pub proof fn lemma_move_tokens(b: Seq<char>, u: Seq<char>, off: int, i: int)
    requires
        stands_at(b, u, off),
        0 <= i <= b.len(),
    ensures
        tokens_from(u, off + i) == match tokens_from(b, i) {
            Ok(tokens) => Ok(moved_tokens(tokens, off)),
            Err(e) => Err(e),
        },
    decreases b.len() - i,
{
    if i == b.len() {
        assert(moved_tokens(Seq::empty(), off) =~= Seq::<SpannedView>::empty());
    } else {
        assert(b[i] == u[off + i]);
        if is_white_space(b[i]) {
            lemma_move_tokens(b, u, off, i + 1);
        } else {
            lemma_move_token(b, u, off, i);
            lemma_token_at(b, i);
            if let Ok((token, end)) = token_at(b, i) {
                lemma_move_tokens(b, u, off, end);
                if let Ok(tokens) = tokens_from(b, end) {
                    let here = SpannedView { start: i, end, token };
                    let there = SpannedView { start: off + i, end: end + off, token };
                    assert(seq![there] + moved_tokens(tokens, off) =~= moved_tokens(
                        seq![here] + tokens,
                        off,
                    ));
                }
            }
        }
    }
}

// ---------------------------------------------------------------------------
// Lines.

/// The line `a;b`.
pub open spec fn joined_lines(a: Seq<char>, b: Seq<char>) -> Seq<char> {
    a + seq![';'] + b
}

/// Lines joined by `;` mean what they mean one after the other: the script of
/// both is the chains of the first and then those of the second. The first line
/// has to lex; otherwise a quote that it leaves open would take in the `;`.
pub proof fn law_lines_join(a: Seq<char>, b: Seq<char>)
    requires
        lexed(a) is Ok,
    ensures
        parsed(joined_lines(a, b)) == match (parsed(a), parsed(b)) {
            (Ok(x), Ok(y)) => Ok(ScriptView { seq: x.seq + y.seq }),
            (Ok(_), Err(e)) => Err(e),
            (Err(e), _) => if lexed(b) is Ok {
                Err(e)
            } else {
                Err(lexed(b)->Err_0)
            },
        },
{
    let u = joined_lines(a, b);
    let n = a.len() as int;
    assert(text_goes_on(a, u));
    assert(stands_at(b, u, n + 1));
    lemma_keep_tokens(a, u, 0);
    lemma_move_tokens(b, u, n + 1, 0);
    assert(token_at(u, n) == Ok::<(TokenView, int), ParseError>((TokenView::Semi, n + 1)));
    let semi = SpannedView { start: n, end: n + 1, token: TokenView::Semi };
    assert(tokens_from(u, n) == prepend_tokens(seq![semi], tokens_from(u, n + 1)));
    let x = lexed(a)->Ok_0;
    if let Ok(y) = lexed(b) {
        let all = x + (seq![semi] + moved_tokens(y, n + 1));
        assert(lexed(u) == Ok::<Seq<SpannedView>, ParseError>(all));
        assert(bare_tokens(all) =~= bare_tokens(x) + seq![TokenView::Semi] + bare_tokens(y));
        law_token_lists_join(bare_tokens(x), bare_tokens(y));
    }
}

/// An empty line means nothing, so semicolons at either end of a line, and
/// repeated ones, change nothing.
pub proof fn law_semicolons_change_nothing(a: Seq<char>)
    requires
        parsed(a) is Ok,
    ensures
        parsed(Seq::empty()) == Ok::<ScriptView, ParseError>(ScriptView { seq: Seq::empty() }),
        parsed(a + seq![';']) == parsed(a),
        parsed(seq![';'] + a) == parsed(a),
        parsed(a + seq![';', ';']) == parsed(a),
{
    let none = Seq::<char>::empty();
    assert(bare_tokens(Seq::empty()) =~= Seq::<TokenView>::empty());
    assert(lexed(none) == Ok::<Seq<SpannedView>, ParseError>(Seq::empty()));
    let x = parsed(a)->Ok_0;
    assert(x.seq + Seq::<AndOrView>::empty() =~= x.seq);
    assert(Seq::<AndOrView>::empty() + x.seq =~= x.seq);
    law_lines_join(a, none);
    assert(joined_lines(a, none) =~= a + seq![';']);
    law_lines_join(none, a);
    assert(joined_lines(none, a) =~= seq![';'] + a);
    law_lines_join(none, none);
    law_lines_join(a, joined_lines(none, none));
    assert(joined_lines(a, joined_lines(none, none)) =~= a + seq![';', ';']);
}

} // verus!
