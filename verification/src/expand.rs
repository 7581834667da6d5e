//! Word expansion: `{a,b}`/`{1..10}` brace groups (first, only in unquoted
//! literal text), then `$VAR`, `${...}` forms (incl. `${VAR#pat}`/`${VAR%pat}`
//! and nested words), `$((...))` arithmetic, `$?`, leading `~`, `$(...)`
//! output, word splitting and globbing (`*`, `?`, `[...]` with `[!]`/`[^]`
//! negation, `**` recursively), in POSIX order: expand → split → glob.
//! Command substitution itself (`Part::Subst`/`QSubst`) is resolved by the
//! executor before expansion.

use vstd::prelude::*;

use crate::arith::{arith_text, eval_arith, Vars};
use crate::brace::{brace_expand_parts, variants};
use crate::env::Env;
use crate::lexer::{at, name_end, part_views, Part, PartView};
use crate::number::{decimal, digits, signed_text, unsigned_text};
use crate::order::{sort_texts, sorted};
use crate::parser::word_views;
use crate::pattern::{
    escape_pattern, escaped, glob_options, shell_options, stripped, trim_pattern, GlobOptions,
};
use crate::text::{
    chars_of, has_char, is_name_char, is_name_part, is_white_space, is_whitespace, string_from,
    string_of, texts,
};

verus! {

// ---------------------------------------------------------------------------
// Parameters.

/// Value of a variable reference: `?` is the last exit status.
pub open spec fn value_of(name: Seq<char>, vars: Vars, last_status: i32) -> Option<Seq<char>> {
    if name == seq!['?'] {
        Some(decimal(last_status as int))
    } else if vars.contains_key(name) {
        Some(vars[name])
    } else {
        None
    }
}

/// The text, or nothing.
pub open spec fn or_empty(text: Option<Seq<char>>) -> Seq<char> {
    match text {
        Some(text) => text,
        None => Seq::empty(),
    }
}

/// The end of the run of characters at `i` that a parameter name in `${...}`
/// is made of.
pub open spec fn param_end(s: Seq<char>, i: int) -> int
    decreases s.len() - i,
{
    if 0 <= i < s.len() && (is_name_char(s[i]) || s[i] == '?') {
        param_end(s, i + 1)
    } else {
        i
    }
}

/// The position just past the `}` that closes `depth` open braces, reading
/// from `i`.
pub open spec fn brace_end(s: Seq<char>, i: int, depth: nat) -> Option<int>
    decreases s.len() - i,
{
    if depth == 0 {
        Some(i)
    } else if !(0 <= i < s.len()) {
        None
    } else if s[i] == '{' {
        brace_end(s, i + 1, depth + 1)
    } else if s[i] == '}' {
        brace_end(s, i + 1, (depth - 1) as nat)
    } else {
        brace_end(s, i + 1, depth)
    }
}

/// Where a character of the word of a `${...}` operator stands.
#[derive(Clone, Copy, PartialEq, Eq, Structural)]
pub enum Quote {
    Plain,
    Single,
    Double,
}

/// What a `${...}` body expands to: plain `${NAME}`, length `${#NAME}`, the
/// default/alternative forms `${NAME:-word}`, `${NAME-word}`,
/// `${NAME:+word}`, `${NAME+word}`, and the stripping forms `${NAME#word}`,
/// `${NAME##word}`, `${NAME%word}`, `${NAME%%word}`. Unknown forms expand to
/// nothing.
pub open spec fn param_text(body: Seq<char>, vars: Vars, last_status: i32) -> Seq<char>
    decreases body.len(), 0int,
{
    let n = param_end(body, 0);
    let name = body.take(n);
    let value = value_of(name, vars, last_status);
    let colon = at(body, n, ':');
    let k = if colon {
        n + 1
    } else {
        n
    };
    let word = body.skip(k + 1);
    let set = if colon {
        value is Some && or_empty(value).len() > 0
    } else {
        value is Some
    };
    if at(body, 0, '#') {
        match value_of(body.skip(1), vars, last_status) {
            Some(value) => digits(value.len()),
            None => seq!['0'],
        }
    } else if n == 0 {
        Seq::empty()
    } else if n == body.len() {
        or_empty(value)
    } else if !(0 < k < body.len()) {
        Seq::empty()
    } else if body[k] == '-' {
        if set {
            or_empty(value)
        } else {
            word_text(word, 0, Quote::Plain, vars, last_status)
        }
    } else if body[k] == '+' {
        if set {
            word_text(word, 0, Quote::Plain, vars, last_status)
        } else {
            Seq::empty()
        }
    } else if (body[k] == '#' || body[k] == '%') && !colon {
        let longest = at(word, 0, body[k]);
        let pattern = if longest {
            word_text(word.skip(1), 0, Quote::Plain, vars, last_status)
        } else {
            word_text(word, 0, Quote::Plain, vars, last_status)
        };
        stripped(or_empty(value), pattern, body[k] == '#', longest)
    } else {
        Seq::empty()
    }
}

/// What the word of a `${...}` operator expands to from `i` on: backslash
/// escapes, quote removal, `$VAR` and nested `${...}`.
pub open spec fn word_text(s: Seq<char>, i: int, quote: Quote, vars: Vars, last_status: i32) -> Seq<
    char,
>
    decreases s.len(), s.len() - i,
{
    if !(0 <= i < s.len()) {
        Seq::empty()
    } else if quote is Single {
        if s[i] == '\'' {
            word_text(s, i + 1, Quote::Plain, vars, last_status)
        } else {
            seq![s[i]] + word_text(s, i + 1, quote, vars, last_status)
        }
    } else if quote is Double && s[i] == '"' {
        word_text(s, i + 1, Quote::Plain, vars, last_status)
    } else if s[i] == '\\' {
        if i + 1 < s.len() {
            seq![s[i + 1]] + word_text(s, i + 2, quote, vars, last_status)
        } else {
            Seq::empty()
        }
    } else if quote is Plain && s[i] == '\'' {
        word_text(s, i + 1, Quote::Single, vars, last_status)
    } else if quote is Plain && s[i] == '"' {
        word_text(s, i + 1, Quote::Double, vars, last_status)
    } else if s[i] == '$' && at(s, i + 1, '{') {
        match brace_end(s, i + 2, 1) {
            Some(end) => if i + 2 < end <= s.len() {
                param_text(s.subrange(i + 2, end - 1), vars, last_status) + word_text(
                    s,
                    end,
                    quote,
                    vars,
                    last_status,
                )
            } else {
                Seq::empty()
            },
            None => seq!['$'] + word_text(s, i + 1, quote, vars, last_status),
        }
    } else if s[i] == '$' {
        let end = if at(s, i + 1, '?') {
            i + 2
        } else {
            name_end(s, i + 1)
        };
        if !(i + 1 < end <= s.len()) {
            seq!['$'] + word_text(s, i + 1, quote, vars, last_status)
        } else {
            or_empty(value_of(s.subrange(i + 1, end), vars, last_status)) + word_text(
                s,
                end,
                quote,
                vars,
                last_status,
            )
        }
    } else {
        seq![s[i]] + word_text(s, i + 1, quote, vars, last_status)
    }
}

/// Value of a variable reference: `?` is the last exit status.
fn param_value(name: &str, env: &Env, last_status: i32) -> (r: Option<String>)
    ensures
        match r {
            Some(text) => value_of(name@, env@, last_status) == Some(text@),
            None => value_of(name@, env@, last_status) is None,
        },
{
    let chars = chars_of(name);
    if chars.len() == 1 && chars[0] == '?' {
        proof {
            assert(name@ =~= seq!['?']);
        }
        Some(signed_text(last_status as i64))
    } else {
        env.get(name)
    }
}

/// The value of a variable reference, or nothing.
fn param_or_empty(name: &str, env: &Env, last_status: i32) -> (r: String)
    ensures
        r@ == or_empty(value_of(name@, env@, last_status)),
{
    match param_value(name, env, last_status) {
        Some(text) => text,
        None => String::new(),
    }
}

/// Evaluate a `${...}` body: plain `${NAME}`, length `${#NAME}`, the POSIX
/// default/alternative forms `${NAME:-word}`, `${NAME-word}`,
/// `${NAME:+word}`, `${NAME+word}` (`NAME` may be `?`), and `${NAME#word}`,
/// `${NAME##word}`, `${NAME%word}`, `${NAME%%word}`, which strip a prefix or
/// a suffix. The word is recursively expanded by [`expand_braced_word`].
/// Unknown forms expand to nothing.
pub fn expand_param(body: &str, env: &Env, last_status: i32) -> (r: String)
    ensures
        r@ == param_text(body@, env@, last_status),
    decreases body@.len(), 0int,
{
    let chars = chars_of(body);
    let len: usize = chars.len();
    if len > 0 && chars[0] == '#' {
        let name = string_of(chars.as_slice(), 1, len);
        proof {
            assert(name@ =~= body@.skip(1));
        }
        return match param_value(name.as_str(), env, last_status) {
            Some(value) => unsigned_text(chars_of(value.as_str()).len() as u64),
            None => unsigned_text(0),
        };
    }
    // The name is the longest run of name characters; the rest is the
    // operator and its word.
    let mut n: usize = 0;
    while n < len && (is_name_part(chars[n]) || chars[n] == '?')
        invariant
            len == chars@.len(),
            n <= len,
            param_end(chars@, 0) == param_end(chars@, n as int),
        decreases len - n,
    {
        n += 1;
    }
    if n == 0 {
        return String::new();
    }
    let name = string_of(chars.as_slice(), 0, n);
    proof {
        assert(name@ =~= body@.take(n as int));
    }
    let value = param_value(name.as_str(), env, last_status);
    if n == len {
        return param_or_empty(name.as_str(), env, last_status);
    }
    // `:-`/`:+` test "unset or null"; bare `-`/`+` test only "unset".
    let colon = chars[n] == ':';
    let k: usize = if colon {
        n + 1
    } else {
        n
    };
    if k >= len {
        return String::new();
    }
    let op = chars[k];
    let word = string_of(chars.as_slice(), k + 1, len);
    proof {
        assert(word@ =~= body@.skip(k + 1));
    }
    let set = match &value {
        Some(text) => !colon || chars_of(text.as_str()).len() > 0,
        None => false,
    };
    if op == '-' {
        if set {
            param_or_empty(name.as_str(), env, last_status)
        } else {
            expand_braced_word(word.as_str(), env, last_status)
        }
    } else if op == '+' {
        if set {
            expand_braced_word(word.as_str(), env, last_status)
        } else {
            String::new()
        }
    } else if (op == '#' || op == '%') && !colon {
        let longest = k + 1 < len && chars[k + 1] == op;
        let pattern = if longest {
            let rest = string_of(chars.as_slice(), k + 2, len);
            proof {
                assert(rest@ =~= word@.skip(1));
            }
            expand_braced_word(rest.as_str(), env, last_status)
        } else {
            expand_braced_word(word.as_str(), env, last_status)
        };
        let text = param_or_empty(name.as_str(), env, last_status);
        trim_pattern(text.as_str(), pattern.as_str(), op == '#', longest)
    } else {
        String::new()
    }
}

/// The position just past the `}` that closes the body at `start`.
fn find_brace_end(chars: &[char], start: usize) -> (r: Option<usize>)
    requires
        1 <= start <= chars@.len(),
    ensures
        match r {
            Some(end) => brace_end(chars@, start as int, 1) == Some(end as int) && start < end
                <= chars@.len(),
            None => brace_end(chars@, start as int, 1) is None,
        },
{
    let mut depth: usize = 1;
    let mut j: usize = start;
    while j < chars.len() && depth > 0
        invariant
            1 <= start <= j <= chars@.len(),
            depth <= 1 + (j - start),
            j == start ==> depth == 1,
            brace_end(chars@, start as int, 1) == brace_end(chars@, j as int, depth as nat),
        decreases chars.len() - j,
    {
        if chars[j] == '{' {
            depth += 1;
        } else if chars[j] == '}' {
            depth -= 1;
        }
        j += 1;
    }
    if depth == 0 {
        Some(j)
    } else {
        None
    }
}

/// Expand the word of a `${VAR:-word}`-style operator: backslash escapes,
/// quote removal, `$VAR` and nested `${...}` — but no command substitution
/// and no field splitting (the word is a single value by definition).
pub fn expand_braced_word(word: &str, env: &Env, last_status: i32) -> (r: String)
    ensures
        r@ == word_text(word@, 0, Quote::Plain, env@, last_status),
    decreases word@.len(), word@.len() + 1,
{
    let chars = chars_of(word);
    let len: usize = chars.len();
    let ghost s = word@;
    let ghost vars = env@;
    let mut out = String::new();
    let mut quote = Quote::Plain;
    let mut i: usize = 0;
    proof {
        assert(out@ + word_text(s, 0, Quote::Plain, vars, last_status) =~= word_text(
            s,
            0,
            Quote::Plain,
            vars,
            last_status,
        ));
    }
    while i < len
        invariant
            s == chars@,
            s == word@,
            vars == env@,
            len == chars@.len(),
            i <= len,
            word_text(s, 0, Quote::Plain, vars, last_status) == out@ + word_text(
                s,
                i as int,
                quote,
                vars,
                last_status,
            ),
        decreases len - i,
    {
        let c = chars[i];
        let ghost before = out@;
        let ghost from = i as int;
        let ghost mode = quote;
        let ghost mut step: Seq<char> = Seq::empty();
        if quote == Quote::Single {
            if c == '\'' {
                quote = Quote::Plain;
            } else {
                out.push(c);
                proof {
                    step = seq![c];
                }
            }
            i += 1;
        } else if quote == Quote::Double && c == '"' {
            quote = Quote::Plain;
            i += 1;
        } else if c == '\\' {
            if i + 1 < len {
                let d = chars[i + 1];
                out.push(d);
                proof {
                    step = seq![d];
                }
                i += 2;
            } else {
                i += 1;
            }
        } else if quote == Quote::Plain && c == '\'' {
            quote = Quote::Single;
            i += 1;
        } else if quote == Quote::Plain && c == '"' {
            quote = Quote::Double;
            i += 1;
        } else if c == '$' && i + 1 < len && chars[i + 1] == '{' {
            // Matching close with nesting; unbalanced → literal `$`.
            match find_brace_end(chars.as_slice(), i + 2) {
                Some(end) => {
                    let body = string_of(chars.as_slice(), i + 2, end - 1);
                    let text = expand_param(body.as_str(), env, last_status);
                    out.append(text.as_str());
                    proof {
                        step = text@;
                    }
                    i = end;
                },
                None => {
                    out.push('$');
                    proof {
                        step = seq!['$'];
                    }
                    i += 1;
                },
            }
        } else if c == '$' {
            let end: usize = if i + 1 < len && chars[i + 1] == '?' {
                i + 2
            } else {
                var_name_end(chars.as_slice(), i + 1)
            };
            if end == i + 1 {
                out.push('$');
                proof {
                    step = seq!['$'];
                }
                i += 1;
            } else {
                let name = string_of(chars.as_slice(), i + 1, end);
                let text = param_or_empty(name.as_str(), env, last_status);
                out.append(text.as_str());
                proof {
                    step = text@;
                }
                i = end;
            }
        } else {
            out.push(c);
            proof {
                step = seq![c];
            }
            i += 1;
        }
        proof {
            let rest = word_text(s, i as int, quote, vars, last_status);
            assert(step + rest =~= word_text(s, from, mode, vars, last_status));
            assert(out@ =~= before + step);
            assert(before + (step + rest) =~= out@ + rest);
        }
    }
    proof {
        assert(out@ + Seq::<char>::empty() =~= out@);
    }
    out
}

/// The end of the run of name characters at `start`.
fn var_name_end(chars: &[char], start: usize) -> (r: usize)
    requires
        start <= chars@.len(),
    ensures
        r == name_end(chars@, start as int),
        start <= r <= chars@.len(),
{
    let mut end: usize = start;
    while end < chars.len() && is_name_part(chars[end])
        invariant
            start <= end <= chars@.len(),
            name_end(chars@, start as int) == name_end(chars@, end as int),
        decreases chars.len() - end,
    {
        end += 1;
    }
    end
}

// ---------------------------------------------------------------------------
// Segments.

/// One expanded segment, by how it participates in splitting and globbing.
pub enum Seg {
    /// Unquoted literal text: joins fields, globs.
    Lit(String),
    /// Quoted text (quotes, `"$VAR"`, `"$()"`, `~`): joins fields literally.
    Quoted(String),
    /// Unquoted `$VAR`/`$()` result: splits on IFS, then globs.
    Expanded(String),
}

/// Model of a [`Seg`].
pub enum SegView {
    Lit(Seq<char>),
    Quoted(Seq<char>),
    Expanded(Seq<char>),
}

impl View for Seg {
    type V = SegView;

    open spec fn view(&self) -> SegView {
        match self {
            Seg::Lit(text) => SegView::Lit(text@),
            Seg::Quoted(text) => SegView::Quoted(text@),
            Seg::Expanded(text) => SegView::Expanded(text@),
        }
    }
}

impl SegView {
    /// The text of a segment.
    pub open spec fn text(self) -> Seq<char> {
        match self {
            SegView::Lit(text) => text,
            SegView::Quoted(text) => text,
            SegView::Expanded(text) => text,
        }
    }
}

/// The models of a list of segments.
pub open spec fn seg_views(v: Seq<Seg>) -> Seq<SegView> {
    Seq::new(v.len(), |i: int| v[i]@)
}

/// The name of the variable that holds the home directory.
pub open spec fn home_name() -> Seq<char> {
    seq!['H', 'O', 'M', 'E']
}

/// The segment that a part becomes, if it becomes one. Substitutions are
/// resolved before expansion; `~` without a home directory disappears.
pub open spec fn part_segment(part: PartView, vars: Vars, last_status: i32) -> Option<SegView> {
    match part {
        PartView::Lit(text) => Some(SegView::Lit(text)),
        PartView::QLit(text) => Some(SegView::Quoted(text)),
        PartView::Var(name) => Some(SegView::Expanded(or_empty(value_of(name, vars, last_status)))),
        PartView::QVar(name) => Some(SegView::Quoted(or_empty(value_of(name, vars, last_status)))),
        PartView::Param(body) => Some(SegView::Expanded(param_text(body, vars, last_status))),
        PartView::QParam(body) => Some(SegView::Quoted(param_text(body, vars, last_status))),
        PartView::Arith(body) => Some(SegView::Expanded(arith_text(body, vars))),
        PartView::QArith(body) => Some(SegView::Quoted(arith_text(body, vars))),
        PartView::Tilde => if vars.contains_key(home_name()) {
            Some(SegView::Quoted(vars[home_name()]))
        } else {
            None
        },
        PartView::SubstOut(text) => Some(SegView::Expanded(text)),
        PartView::Subst(_) => None,
        PartView::QSubst(_) => None,
    }
}

/// The segments of a word.
pub open spec fn segments(parts: Seq<PartView>, vars: Vars, last_status: i32) -> Seq<SegView>
    decreases parts.len(),
{
    if parts.len() == 0 {
        Seq::empty()
    } else {
        let before = segments(parts.drop_last(), vars, last_status);
        match part_segment(parts.last(), vars, last_status) {
            Some(seg) => before.push(seg),
            None => before,
        }
    }
}

/// The texts of segments, one after the other.
pub open spec fn segments_text(segs: Seq<SegView>) -> Seq<char>
    decreases segs.len(),
{
    if segs.len() == 0 {
        Seq::empty()
    } else {
        segments_text(segs.drop_last()) + segs.last().text()
    }
}

/// What a word expands to as a single text.
pub open spec fn expanded_word(parts: Seq<PartView>, vars: Vars, last_status: i32) -> Seq<char> {
    segments_text(segments(parts, vars, last_status))
}

/// The segment that a part becomes.
fn expand_part(part: &Part, env: &Env, last_status: i32) -> (r: Option<Seg>)
    ensures
        match r {
            Some(seg) => part_segment(part@, env@, last_status) == Some(seg@),
            None => part_segment(part@, env@, last_status) is None,
        },
{
    match part {
        Part::Lit(text) => Some(Seg::Lit(text.clone())),
        Part::QLit(text) => Some(Seg::Quoted(text.clone())),
        Part::Var(name) => Some(Seg::Expanded(param_or_empty(name.as_str(), env, last_status))),
        Part::QVar(name) => Some(Seg::Quoted(param_or_empty(name.as_str(), env, last_status))),
        Part::Param(body) => Some(Seg::Expanded(expand_param(body.as_str(), env, last_status))),
        Part::QParam(body) => Some(Seg::Quoted(expand_param(body.as_str(), env, last_status))),
        Part::Arith(body) => Some(Seg::Expanded(eval_arith(body.as_str(), env))),
        Part::QArith(body) => Some(Seg::Quoted(eval_arith(body.as_str(), env))),
        Part::Tilde => {
            proof {
                reveal_strlit("HOME");
                assert("HOME"@ =~= home_name());
            }
            match env.get("HOME") {
                Some(home) => Some(Seg::Quoted(home)),
                None => None,
            }
        },
        Part::SubstOut(text) => Some(Seg::Expanded(text.clone())),
        // Substitutions are already resolved by the executor.
        Part::Subst(_) => None,
        Part::QSubst(_) => None,
    }
}

/// Expand a word into its segments.
pub fn expand_segments(parts: &[Part], env: &Env, last_status: i32) -> (r: Vec<Seg>)
    ensures
        seg_views(r@) == segments(part_views(parts@), env@, last_status),
{
    let ghost all = part_views(parts@);
    let mut out: Vec<Seg> = Vec::new();
    let mut i: usize = 0;
    proof {
        assert(seg_views(out@) =~= segments(all.take(0), env@, last_status));
    }
    while i < parts.len()
        invariant
            all == part_views(parts@),
            i <= parts@.len(),
            seg_views(out@) == segments(all.take(i as int), env@, last_status),
        decreases parts.len() - i,
    {
        proof {
            assert(all.take(i + 1).drop_last() =~= all.take(i as int));
            assert(all.take(i + 1).last() == parts@[i as int]@);
        }
        if let Some(seg) = expand_part(&parts[i], env, last_status) {
            let ghost before = seg_views(out@);
            out.push(seg);
            proof {
                assert(seg_views(out@) =~= before.push(seg@));
            }
        }
        i += 1;
    }
    proof {
        assert(all.take(parts@.len() as int) =~= all);
    }
    out
}

/// Expand a word to a single string (used for redirect targets: no word
/// splitting, no globbing).
pub fn expand_word(parts: &[Part], env: &Env, last_status: i32) -> (r: String)
    ensures
        r@ == expanded_word(part_views(parts@), env@, last_status),
{
    let segs = expand_segments(parts, env, last_status);
    let ghost all = seg_views(segs@);
    let mut out = String::new();
    let mut i: usize = 0;
    proof {
        assert(out@ =~= segments_text(all.take(0)));
    }
    while i < segs.len()
        invariant
            all == seg_views(segs@),
            i <= segs@.len(),
            out@ == segments_text(all.take(i as int)),
        decreases segs.len() - i,
    {
        proof {
            assert(all.take(i + 1).drop_last() =~= all.take(i as int));
            assert(all.take(i + 1).last() == segs@[i as int]@);
        }
        match &segs[i] {
            Seg::Lit(text) => out.append(text.as_str()),
            Seg::Quoted(text) => out.append(text.as_str()),
            Seg::Expanded(text) => out.append(text.as_str()),
        }
        i += 1;
    }
    proof {
        assert(all.take(segs@.len() as int) =~= all);
    }
    out
}

// ---------------------------------------------------------------------------
// Splitting.

/// The characters that split: `$IFS` or the POSIX default.
pub open spec fn separators(vars: Vars) -> Seq<char> {
    let name = seq!['I', 'F', 'S'];
    if vars.contains_key(name) {
        vars[name]
    } else {
        seq![' ', '\t', '\n']
    }
}

/// A white space character that splits.
pub open spec fn soft(ifs: Seq<char>, c: char) -> bool {
    ifs.contains(c) && is_white_space(c)
}

/// The end of the run of splitting white space at `i`.
pub open spec fn soft_end(t: Seq<char>, ifs: Seq<char>, i: int) -> int
    decreases t.len() - i,
{
    if 0 <= i < t.len() && soft(ifs, t[i]) {
        soft_end(t, ifs, i + 1)
    } else {
        i
    }
}

/// The end of the run at `i` of characters that do not split.
pub open spec fn content_end(t: Seq<char>, ifs: Seq<char>, i: int) -> int
    decreases t.len() - i,
{
    if 0 <= i < t.len() && !ifs.contains(t[i]) {
        content_end(t, ifs, i + 1)
    } else {
        i
    }
}

/// A delimiter at `i` holds a splitting character that is not white space.
pub open spec fn hard_at(t: Seq<char>, ifs: Seq<char>, i: int) -> bool {
    let j = soft_end(t, ifs, i);
    0 <= j < t.len() && ifs.contains(t[j])
}

/// The end of the delimiter at `i`: a run of splitting white space, or one
/// other splitting character with the splitting white space around it. `i`
/// itself where no delimiter stands.
pub open spec fn delimiter_end(t: Seq<char>, ifs: Seq<char>, i: int) -> int {
    if hard_at(t, ifs, i) {
        soft_end(t, ifs, soft_end(t, ifs, i) + 1)
    } else {
        soft_end(t, ifs, i)
    }
}

/// One output field: its text, its glob pattern (quoted chars escaped) and
/// whether any unquoted segment contributed glob metacharacters.
pub struct Field {
    pub text: String,
    pub pattern: String,
    pub has_meta: bool,
}

/// Model of a [`Field`].
pub struct FieldView {
    pub text: Seq<char>,
    pub pattern: Seq<char>,
    pub has_meta: bool,
}

impl View for Field {
    type V = FieldView;

    open spec fn view(&self) -> FieldView {
        FieldView { text: self.text@, pattern: self.pattern@, has_meta: self.has_meta }
    }
}

/// The models of a list of fields.
pub open spec fn field_views(v: Seq<Field>) -> Seq<FieldView> {
    Seq::new(v.len(), |i: int| v[i]@)
}

/// A field without text.
pub open spec fn empty_field() -> FieldView {
    FieldView { text: Seq::empty(), pattern: Seq::empty(), has_meta: false }
}

/// A character that makes a pattern of the text it stands in.
pub open spec fn is_meta(c: char) -> bool {
    c == '*' || c == '?' || c == '['
}

/// A text with a character that makes a pattern of it.
pub open spec fn has_meta(text: Seq<char>) -> bool {
    exists|i: int| 0 <= i < text.len() && is_meta(#[trigger] text[i])
}

impl FieldView {
    /// The field with unquoted text after it.
    pub open spec fn with_live(self, text: Seq<char>) -> FieldView {
        FieldView {
            text: self.text + text,
            pattern: self.pattern + text,
            has_meta: self.has_meta || has_meta(text),
        }
    }

    /// The field with quoted text after it.
    pub open spec fn with_quoted(self, text: Seq<char>) -> FieldView {
        FieldView { text: self.text + text, pattern: self.pattern + escaped(text), ..self }
    }
}

/// Fields that are complete, and the one that still grows.
pub struct Splitting {
    pub done: Seq<FieldView>,
    pub current: Option<FieldView>,
}

impl Splitting {
    /// The field that grows; a new one where none does.
    pub open spec fn open_field(self) -> FieldView {
        match self.current {
            Some(field) => field,
            None => empty_field(),
        }
    }

    /// With `field` growing.
    pub open spec fn growing(self, field: FieldView) -> Splitting {
        Splitting { current: Some(field), ..self }
    }

    /// With the growing field complete. Where none grows, a delimiter that is
    /// not white space alone completes an empty one.
    pub open spec fn closed_by(self, hard: bool) -> Splitting {
        let done = match self.current {
            Some(field) => self.done.push(field),
            None => if hard {
                self.done.push(empty_field())
            } else {
                self.done
            },
        };
        Splitting { done, current: None }
    }

    /// All fields.
    pub open spec fn all(self) -> Seq<FieldView> {
        match self.current {
            Some(field) => self.done.push(field),
            None => self.done,
        }
    }
}

/// `state` after the text `t` of an unquoted expansion, from `i` on. Text up
/// to the first delimiter joins the growing field; each delimiter completes a
/// field, and the text after it starts the next one. A delimiter at the end
/// leaves no field behind.
pub open spec fn split_from(state: Splitting, t: Seq<char>, ifs: Seq<char>, i: int) -> Splitting
    decreases t.len() - i,
{
    let start = delimiter_end(t, ifs, i);
    let end = content_end(t, ifs, start);
    if !(0 <= i <= start <= end <= t.len() && i < end) {
        state
    } else if start == i {
        split_from(state.growing(state.open_field().with_live(t.subrange(start, end))), t, ifs, end)
    } else if start == t.len() {
        state.closed_by(hard_at(t, ifs, i))
    } else {
        split_from(
            state.closed_by(hard_at(t, ifs, i)).growing(
                empty_field().with_live(t.subrange(start, end)),
            ),
            t,
            ifs,
            end,
        )
    }
}

/// `state` after a segment.
pub open spec fn after_segment(state: Splitting, seg: SegView, ifs: Seq<char>) -> Splitting {
    match seg {
        SegView::Lit(text) => state.growing(state.open_field().with_live(text)),
        SegView::Quoted(text) => state.growing(state.open_field().with_quoted(text)),
        SegView::Expanded(text) => split_from(state, text, ifs, 0),
    }
}

/// The segments with neighbouring unquoted expansions made one: they behave
/// as one concatenated text.
pub open spec fn merged(segs: Seq<SegView>) -> Seq<SegView>
    decreases segs.len(),
{
    if segs.len() == 0 {
        Seq::empty()
    } else {
        let before = merged(segs.drop_last());
        if segs.last() is Expanded && before.len() > 0 && before.last() is Expanded {
            before.drop_last().push(SegView::Expanded(before.last().text() + segs.last().text()))
        } else {
            before.push(segs.last())
        }
    }
}

/// The state after all of `segs`.
pub open spec fn after_segments(segs: Seq<SegView>, ifs: Seq<char>) -> Splitting
    decreases segs.len(),
{
    if segs.len() == 0 {
        Splitting { done: Seq::empty(), current: None }
    } else {
        after_segment(after_segments(segs.drop_last(), ifs), segs.last(), ifs)
    }
}

/// The fields of a word, from its segments.
pub open spec fn fields_of(segs: Seq<SegView>, ifs: Seq<char>) -> Seq<FieldView> {
    after_segments(merged(segs), ifs).all()
}

/// Whether the text makes a pattern of the field it goes into.
fn has_glob_chars(text: &str) -> (r: bool)
    ensures
        r == has_meta(text@),
{
    let chars = chars_of(text);
    let mut i: usize = 0;
    while i < chars.len()
        invariant
            chars@ == text@,
            i <= chars@.len(),
            forall|k: int| 0 <= k < i ==> !is_meta(#[trigger] chars@[k]),
        decreases chars.len() - i,
    {
        let c = chars[i];
        if c == '*' || c == '?' || c == '[' {
            proof {
                assert(is_meta(text@[i as int]));
            }
            return true;
        }
        i += 1;
    }
    false
}

/// Fields that are complete, and the one that still grows.
struct Splitter {
    done: Vec<Field>,
    current: Option<Field>,
}

impl Splitter {
    spec fn view(self) -> Splitting {
        Splitting {
            done: field_views(self.done@),
            current: match self.current {
                Some(field) => Some(field@),
                None => None,
            },
        }
    }

    /// Take the growing field out; a new one where none grows.
    fn take_open(&mut self) -> (r: Field)
        ensures
            r@ == old(self).view().open_field(),
            final(self).done == old(self).done,
            final(self).current is None,
    {
        match self.current.take() {
            Some(field) => field,
            None => {
                let field = Field {
                    text: String::new(),
                    pattern: String::new(),
                    has_meta: false,
                };
                proof {
                    assert(field.text@ =~= Seq::<char>::empty());
                    assert(field.pattern@ =~= Seq::<char>::empty());
                }
                field
            },
        }
    }

    fn push_live(&mut self, text: &str)
        ensures
            final(self).view() == old(self).view().growing(
                old(self).view().open_field().with_live(text@),
            ),
    {
        let mut field = self.take_open();
        field.text.append(text);
        field.pattern.append(text);
        field.has_meta = field.has_meta || has_glob_chars(text);
        self.current = Some(field);
    }

    fn push_quoted(&mut self, text: &str)
        ensures
            final(self).view() == old(self).view().growing(
                old(self).view().open_field().with_quoted(text@),
            ),
    {
        let mut field = self.take_open();
        field.text.append(text);
        field.pattern.append(escape_pattern(text).as_str());
        self.current = Some(field);
    }

    /// A delimiter: the growing field is complete.
    fn close(&mut self, hard: bool)
        ensures
            final(self).view() == old(self).view().closed_by(hard),
    {
        let ghost before = field_views(self.done@);
        if self.current.is_some() || hard {
            let field = self.take_open();
            self.done.push(field);
            proof {
                assert(field_views(self.done@) =~= before.push(field@));
            }
        }
    }

    /// Split the text of an unquoted expansion, POSIX style: runs of IFS
    /// whitespace collapse and never yield empty fields; a non-whitespace IFS
    /// char (adjacent IFS whitespace folds into it) terminates a field — even
    /// an empty one. A trailing delimiter closes the pending field but leaves
    /// no empty field behind.
    fn push_expanded(&mut self, text: &str, ifs: &[char])
        ensures
            final(self).view() == split_from(old(self).view(), text@, ifs@, 0),
    {
        let chars = chars_of(text);
        let ghost t = text@;
        let mut i: usize = 0;
        while i < chars.len()
            invariant
                t == chars@,
                t == text@,
                i <= chars@.len(),
                split_from(old(self).view(), t, ifs@, 0) == split_from(
                    self.view(),
                    t,
                    ifs@,
                    i as int,
                ),
            decreases chars.len() - i,
        {
            // One delimiter: an IFS-whitespace run, or one non-whitespace IFS
            // char with the IFS whitespace around it.
            let soft_to = skip_soft(chars.as_slice(), ifs, i);
            let hard = soft_to < chars.len() && has_char(ifs, chars[soft_to]);
            let start: usize = if hard {
                skip_soft(chars.as_slice(), ifs, soft_to + 1)
            } else {
                soft_to
            };
            let end = skip_content(chars.as_slice(), ifs, start);
            proof {
                lemma_progress(t, ifs@, i as int);
            }
            let piece = string_of(chars.as_slice(), start, end);
            if start > i {
                self.close(hard);
                if start == chars.len() {
                    proof {
                        assert(split_from(self.view(), t, ifs@, t.len() as int) == self.view());
                    }
                    return;
                }
            }
            proof {
                if start > i {
                    assert(self.view().current is None);
                }
            }
            self.push_live(piece.as_str());
            i = end;
        }
    }
}

/// The end of the run of splitting white space at `i`.
fn skip_soft(chars: &[char], ifs: &[char], i: usize) -> (r: usize)
    requires
        i <= chars@.len(),
    ensures
        r == soft_end(chars@, ifs@, i as int),
        i <= r <= chars@.len(),
{
    let mut j: usize = i;
    while j < chars.len() && has_char(ifs, chars[j]) && is_whitespace(chars[j])
        invariant
            i <= j <= chars@.len(),
            soft_end(chars@, ifs@, i as int) == soft_end(chars@, ifs@, j as int),
        decreases chars.len() - j,
    {
        j += 1;
    }
    j
}

/// The end of the run at `i` of characters that do not split.
fn skip_content(chars: &[char], ifs: &[char], i: usize) -> (r: usize)
    requires
        i <= chars@.len(),
    ensures
        r == content_end(chars@, ifs@, i as int),
        i <= r <= chars@.len(),
{
    let mut j: usize = i;
    while j < chars.len() && !has_char(ifs, chars[j])
        invariant
            i <= j <= chars@.len(),
            content_end(chars@, ifs@, i as int) == content_end(chars@, ifs@, j as int),
        decreases chars.len() - j,
    {
        j += 1;
    }
    j
}

proof fn lemma_soft_end(t: Seq<char>, ifs: Seq<char>, i: int)
    requires
        0 <= i <= t.len(),
    ensures
        i <= soft_end(t, ifs, i) <= t.len(),
        soft_end(t, ifs, i) < t.len() ==> !soft(ifs, t[soft_end(t, ifs, i)]),
    decreases t.len() - i,
{
    if i < t.len() && soft(ifs, t[i]) {
        lemma_soft_end(t, ifs, i + 1);
    }
}

proof fn lemma_content_end(t: Seq<char>, ifs: Seq<char>, i: int)
    requires
        0 <= i <= t.len(),
    ensures
        i <= content_end(t, ifs, i) <= t.len(),
        content_end(t, ifs, i) < t.len() ==> ifs.contains(t[content_end(t, ifs, i)]),
        forall|k: int| i <= k < content_end(t, ifs, i) ==> !ifs.contains(#[trigger] t[k]),
    decreases t.len() - i,
{
    if i < t.len() && !ifs.contains(t[i]) {
        lemma_content_end(t, ifs, i + 1);
    }
}

/// A delimiter, the text after it, or both stand at every position.
proof fn lemma_progress(t: Seq<char>, ifs: Seq<char>, i: int)
    requires
        0 <= i < t.len(),
    ensures
        i <= delimiter_end(t, ifs, i) <= content_end(t, ifs, delimiter_end(t, ifs, i)) <= t.len(),
        i < content_end(t, ifs, delimiter_end(t, ifs, i)),
        delimiter_end(t, ifs, i) == i <==> !ifs.contains(t[i]),
{
    let j = soft_end(t, ifs, i);
    lemma_soft_end(t, ifs, i);
    if hard_at(t, ifs, i) {
        lemma_soft_end(t, ifs, j + 1);
    }
    lemma_content_end(t, ifs, delimiter_end(t, ifs, i));
    if j > i {
        assert(soft(ifs, t[i]));
    }
}

/// The segments with neighbouring unquoted expansions made one.
fn merge_expanded(segs: &[Seg]) -> (r: Vec<Seg>)
    ensures
        seg_views(r@) == merged(seg_views(segs@)),
{
    let ghost all = seg_views(segs@);
    let mut out: Vec<Seg> = Vec::new();
    let mut i: usize = 0;
    proof {
        assert(seg_views(out@) =~= merged(all.take(0)));
    }
    while i < segs.len()
        invariant
            all == seg_views(segs@),
            i <= segs@.len(),
            seg_views(out@) == merged(all.take(i as int)),
        decreases segs.len() - i,
    {
        let ghost before = seg_views(out@);
        proof {
            assert(all.take(i + 1).drop_last() =~= all.take(i as int));
            assert(all.take(i + 1).last() == segs@[i as int]@);
            if out@.len() > 0 {
                assert(before.last() == out@.last()@);
            }
        }
        match &segs[i] {
            Seg::Lit(text) => out.push(Seg::Lit(text.clone())),
            Seg::Quoted(text) => out.push(Seg::Quoted(text.clone())),
            Seg::Expanded(text) => {
                let n: usize = out.len();
                let joins = n > 0 && matches!(out[n - 1], Seg::Expanded(_));
                let mut whole = String::new();
                if joins {
                    if let Some(Seg::Expanded(head)) = out.pop() {
                        whole = head;
                    }
                    proof {
                        assert(seg_views(out@) =~= before.drop_last());
                    }
                }
                let ghost head = whole@;
                let ghost kept = seg_views(out@);
                whole.append(text.as_str());
                out.push(Seg::Expanded(whole));
                proof {
                    assert(seg_views(out@) =~= kept.push(SegView::Expanded(head + text@)));
                    if !joins {
                        assert(head + text@ =~= text@);
                    }
                }
            },
        }
        proof {
            assert(seg_views(out@) =~= merged(all.take(i + 1)));
        }
        i += 1;
    }
    proof {
        assert(all.take(segs@.len() as int) =~= all);
    }
    out
}

/// Split segments into fields on IFS. Literal/quoted segments never split;
/// an `Expanded` segment splits at its delimiters, with the leading piece
/// joining the current field (adjacent unquoted expansions behave as one
/// concatenated text, POSIX) and a trailing delimiter closing it. An empty
/// expansion contributes nothing; a word that expands to no fields at all
/// disappears entirely.
pub fn split_fields(segs: &[Seg], ifs: &str) -> (r: Vec<Field>)
    ensures
        field_views(r@) == fields_of(seg_views(segs@), ifs@),
{
    let joined = merge_expanded(segs);
    let ghost all = seg_views(joined@);
    let separators = chars_of(ifs);
    let mut state = Splitter { done: Vec::new(), current: None };
    let mut i: usize = 0;
    proof {
        assert(field_views(state.done@) =~= Seq::<FieldView>::empty());
        assert(state.view() == after_segments(all.take(0), ifs@));
    }
    while i < joined.len()
        invariant
            all == seg_views(joined@),
            separators@ == ifs@,
            i <= joined@.len(),
            state.view() == after_segments(all.take(i as int), ifs@),
        decreases joined.len() - i,
    {
        proof {
            assert(all.take(i + 1).drop_last() =~= all.take(i as int));
            assert(all.take(i + 1).last() == joined@[i as int]@);
        }
        match &joined[i] {
            Seg::Lit(text) => state.push_live(text.as_str()),
            Seg::Quoted(text) => state.push_quoted(text.as_str()),
            Seg::Expanded(text) => state.push_expanded(text.as_str(), separators.as_slice()),
        }
        i += 1;
    }
    proof {
        assert(all.take(joined@.len() as int) =~= all);
    }
    let ghost end = state.view();
    state.close(false);
    proof {
        assert(field_views(state.done@) == end.all());
    }
    state.done
}

// ---------------------------------------------------------------------------
// Globbing.

/// The pattern with classes negated by `!`: the `^` of every `[^` becomes
/// one. Quoted text is already escaped, so a raw `[^` is always a class.
pub open spec fn class_pattern(pattern: Seq<char>) -> Seq<char> {
    Seq::new(
        pattern.len(),
        |i: int|
            if pattern[i] == '^' && i > 0 && pattern[i - 1] == '[' {
                '!'
            } else {
                pattern[i]
            },
    )
}

/// The paths on disk that a pattern was found to match, with `None` for an entry
/// that could not be read; `None` for the whole when the pattern was refused.
pub type Paths = Option<Vec<Option<String>>>;

/// Model of [`Paths`].
pub type Found = Option<Seq<Option<Seq<char>>>>;

/// Model of the paths that were found.
pub open spec fn found_view(found: Paths) -> Found {
    match found {
        Some(paths) => Some(
            Seq::new(
                paths@.len(),
                |i: int|
                    match paths@[i] {
                        Some(path) => Some(path@),
                        None => None,
                    },
            ),
        ),
        None => None,
    }
}

/// A path without the `./` before it.
pub open spec fn bare_path(path: Seq<char>) -> Seq<char> {
    if at(path, 0, '.') && at(path, 1, '/') {
        path.skip(2)
    } else {
        path
    }
}

/// The paths that could be read.
pub open spec fn readable(paths: Seq<Option<Seq<char>>>) -> Seq<Seq<char>>
    decreases paths.len(),
{
    if paths.len() == 0 {
        Seq::empty()
    } else {
        match paths.last() {
            Some(path) => readable(paths.drop_last()).push(bare_path(path)),
            None => readable(paths.drop_last()),
        }
    }
}

/// What a field becomes when its pattern was found to match `found`: the
/// paths in alphabetical order, or its text when it is no pattern or nothing
/// matched.
pub open spec fn field_texts(field: FieldView, found: Found) -> Seq<Seq<char>> {
    let paths = match found {
        Some(paths) => readable(paths),
        None => Seq::empty(),
    };
    if field.has_meta && paths.len() > 0 {
        sorted(paths)
    } else {
        seq![field.text]
    }
}

/// `find` can come back with `found` when it is asked for the paths that match
/// `pattern`, the way the shell looks for them.
pub open spec fn finds<F: Fn(&str, GlobOptions) -> Paths>(
    find: F,
    pattern: Seq<char>,
    found: Found,
) -> bool {
    exists|text: &str, paths: Paths|
        {
            &&& text@ == pattern
            &&& found == found_view(paths)
            &&& #[trigger] find.ensures((text, shell_options()), paths)
        }
}

/// `found` is what `find` came back with for `field`: it is asked about fields
/// with metacharacters only.
pub open spec fn found_for<F: Fn(&str, GlobOptions) -> Paths>(
    find: F,
    field: FieldView,
    found: Found,
) -> bool {
    if field.has_meta {
        finds(find, class_pattern(field.pattern), found)
    } else {
        found is None
    }
}

/// What `fields` become when `founds` was found for each.
pub open spec fn globbed(fields: Seq<FieldView>, founds: Seq<Found>) -> Seq<Seq<char>>
    decreases fields.len(),
{
    if fields.len() == 0 {
        Seq::empty()
    } else {
        globbed(fields.drop_last(), founds.drop_last()) + field_texts(fields.last(), founds.last())
    }
}

/// `out` is what `fields` become with what `find` came back with for each.
pub open spec fn globs_to<F: Fn(&str, GlobOptions) -> Paths>(
    find: F,
    fields: Seq<FieldView>,
    out: Seq<Seq<char>>,
) -> bool {
    exists|founds: Seq<Found>|
        {
            &&& founds.len() == fields.len()
            &&& forall|i: int|
                0 <= i < fields.len() ==> found_for(find, fields[i], #[trigger] founds[i])
            &&& out == #[trigger] globbed(fields, founds)
        }
}

/// `find` can be asked about every pattern.
pub open spec fn can_find<F: Fn(&str, GlobOptions) -> Paths>(find: F) -> bool {
    forall|pattern: &str, options: GlobOptions| #[trigger] find.requires((pattern, options))
}

/// The pattern of a field as the `glob` crate reads it.
pub fn glob_pattern(field: &Field) -> (r: String)
    ensures
        r@ == class_pattern(field@.pattern),
{
    let chars = chars_of(field.pattern.as_str());
    let ghost all = class_pattern(chars@);
    let mut out: Vec<char> = Vec::new();
    let mut i: usize = 0;
    while i < chars.len()
        invariant
            all == class_pattern(chars@),
            i <= chars@.len(),
            out@ == all.take(i as int),
        decreases chars.len() - i,
    {
        if chars[i] == '^' && i > 0 && chars[i - 1] == '[' {
            out.push('!');
        } else {
            out.push(chars[i]);
        }
        proof {
            assert(out@ =~= all.take(i + 1));
        }
        i += 1;
    }
    proof {
        assert(all.take(chars@.len() as int) =~= all);
    }
    string_from(out.as_slice())
}

/// The path without the `./` before it.
fn strip_here(path: &str) -> (r: String)
    ensures
        r@ == bare_path(path@),
{
    let chars = chars_of(path);
    let n: usize = chars.len();
    if n >= 2 && chars[0] == '.' && chars[1] == '/' {
        proof {
            assert(chars@.skip(2) =~= chars@.subrange(2, n as int));
        }
        string_of(chars.as_slice(), 2, n)
    } else {
        string_from(chars.as_slice())
    }
}

/// What a field becomes when its pattern was found to match `found`; no
/// matches (or no metacharacters) → the field text stays as-is.
pub fn glob_field_with(field: &Field, found: &Paths) -> (r: Vec<String>)
    ensures
        texts(r@) == field_texts(field@, found_view(*found)),
{
    let mut paths: Vec<String> = Vec::new();
    if let Some(entries) = found {
        let ghost all = found_view(*found)->0;
        let mut i: usize = 0;
        proof {
            assert(texts(paths@) =~= readable(all.take(0)));
        }
        while i < entries.len()
            invariant
                Some(*entries) == *found,
                all == found_view(*found)->0,
                i <= entries@.len(),
                texts(paths@) == readable(all.take(i as int)),
            decreases entries.len() - i,
        {
            let ghost before = texts(paths@);
            proof {
                assert(all.take(i + 1).drop_last() =~= all.take(i as int));
                assert(all.take(i + 1).last() == all[i as int]);
            }
            if let Some(path) = &entries[i] {
                let bare = strip_here(path.as_str());
                paths.push(bare);
                proof {
                    assert(texts(paths@) =~= before.push(bare@));
                }
            }
            i += 1;
        }
        proof {
            assert(all.take(entries@.len() as int) =~= all);
        }
    } else {
        proof {
            assert(texts(paths@) =~= Seq::<Seq<char>>::empty());
        }
    }
    if field.has_meta && paths.len() > 0 {
        sort_texts(paths)
    } else {
        let mut out: Vec<String> = Vec::new();
        out.push(field.text.clone());
        proof {
            assert(texts(out@) =~= seq![field.text@]);
        }
        out
    }
}

/// Glob one field's pattern: `*`/`?`/`[..]` stay within one path component
/// (only `**` crosses `/`) and never match a leading dot. `find` looks for the
/// paths on disk.
pub fn glob_field<F: Fn(&str, GlobOptions) -> Paths>(field: &Field, find: &F) -> (r: Vec<String>)
    requires
        can_find(*find),
    ensures
        exists|found: Found|
            found_for(*find, field@, found) && texts(r@) == #[trigger] field_texts(field@, found),
        !field@.has_meta ==> texts(r@) == seq![field@.text],
{
    let mut found: Paths = None;
    if field.has_meta {
        let pattern = glob_pattern(field);
        let text = pattern.as_str();
        let options = glob_options();
        found = find(text, options);
        proof {
            assert(find.ensures((text, shell_options()), found));
        }
    }
    let out = glob_field_with(field, &found);
    proof {
        assert(found_for(*find, field@, found_view(found)));
        assert(texts(out@) == field_texts(field@, found_view(found)));
    }
    out
}

/// The fields of each word in turn.
pub open spec fn all_fields(
    words: Seq<Seq<PartView>>,
    vars: Vars,
    last_status: i32,
) -> Seq<FieldView>
    decreases words.len(),
{
    if words.len() == 0 {
        Seq::empty()
    } else {
        all_fields(words.drop_last(), vars, last_status) + fields_of(
            segments(words.last(), vars, last_status),
            separators(vars),
        )
    }
}

/// The fields of a word: brace expansion, then per resulting word expansion
/// and splitting. A word without parts is an explicitly quoted empty string,
/// which is one empty field.
pub open spec fn word_fields(parts: Seq<PartView>, vars: Vars, last_status: i32) -> Seq<FieldView> {
    if parts.len() == 0 {
        seq![empty_field()]
    } else {
        all_fields(variants(parts), vars, last_status)
    }
}

/// The fields of a command's words.
pub open spec fn argv_fields(argv: Seq<Seq<PartView>>, vars: Vars, last_status: i32) -> Seq<
    FieldView,
>
    decreases argv.len(),
{
    if argv.len() == 0 {
        Seq::empty()
    } else {
        argv_fields(argv.drop_last(), vars, last_status) + word_fields(
            argv.last(),
            vars,
            last_status,
        )
    }
}

/// IFS for word splitting: `$IFS` or the POSIX default.
fn ifs_chars(env: &Env) -> (r: String)
    ensures
        r@ == separators(env@),
{
    proof {
        reveal_strlit("IFS");
        reveal_strlit(" \t\n");
        assert("IFS"@ =~= seq!['I', 'F', 'S']);
        assert(" \t\n"@ =~= seq![' ', '\t', '\n']);
    }
    match env.get("IFS") {
        Some(ifs) => ifs,
        None => String::from_str(" \t\n"),
    }
}

/// The fields of a word, before globbing.
pub fn expand_fields(parts: &[Part], env: &Env, last_status: i32) -> (r: Vec<Field>)
    ensures
        field_views(r@) == word_fields(part_views(parts@), env@, last_status),
{
    let mut out: Vec<Field> = Vec::new();
    // An explicitly quoted empty string still yields one (empty) field.
    if parts.len() == 0 {
        let field = Field { text: String::new(), pattern: String::new(), has_meta: false };
        proof {
            assert(field.text@ =~= Seq::<char>::empty());
            assert(field.pattern@ =~= Seq::<char>::empty());
        }
        out.push(field);
        proof {
            assert(field_views(out@) =~= seq![empty_field()]);
        }
        return out;
    }
    let ifs = ifs_chars(env);
    let words = brace_expand_parts(parts);
    let ghost all = word_views(words@);
    let mut i: usize = 0;
    proof {
        assert(field_views(out@) =~= all_fields(all.take(0), env@, last_status));
    }
    while i < words.len()
        invariant
            ifs@ == separators(env@),
            all == word_views(words@),
            i <= words@.len(),
            field_views(out@) == all_fields(all.take(i as int), env@, last_status),
        decreases words.len() - i,
    {
        let segs = expand_segments(words[i].as_slice(), env, last_status);
        let mut fields = split_fields(segs.as_slice(), ifs.as_str());
        let ghost old_out = out@;
        let ghost old_fields = fields@;
        out.append(&mut fields);
        proof {
            assert(out@ == old_out + old_fields);
            assert(field_views(out@) =~= field_views(old_out) + field_views(old_fields));
            assert(all.take(i + 1).drop_last() =~= all.take(i as int));
            assert(all.take(i + 1).last() == part_views(words@[i as int]@));
        }
        i += 1;
    }
    proof {
        assert(all.take(words@.len() as int) =~= all);
    }
    out
}

/// Glob every field.
fn glob_fields<F: Fn(&str, GlobOptions) -> Paths>(fields: &[Field], find: &F) -> (r: Vec<String>)
    requires
        can_find(*find),
    ensures
        globs_to(*find, field_views(fields@), texts(r@)),
{
    let ghost all = field_views(fields@);
    let ghost mut founds: Seq<Found> = Seq::empty();
    let mut out: Vec<String> = Vec::new();
    let mut i: usize = 0;
    proof {
        assert(texts(out@) =~= globbed(all.take(0), founds));
    }
    while i < fields.len()
        invariant
            all == field_views(fields@),
            i <= fields@.len(),
            founds.len() == i,
            can_find(*find),
            forall|k: int| 0 <= k < i ==> found_for(*find, all[k], #[trigger] founds[k]),
            texts(out@) == globbed(all.take(i as int), founds),
        decreases fields.len() - i,
    {
        let mut more = glob_field(&fields[i], find);
        let ghost found = choose|found: Found|
            found_for(*find, fields@[i as int]@, found) && texts(more@) == #[trigger] field_texts(
                fields@[i as int]@,
                found,
            );
        let ghost old_out = out@;
        let ghost old_more = more@;
        out.append(&mut more);
        proof {
            assert(out@ == old_out + old_more);
            assert(texts(out@) =~= texts(old_out) + texts(old_more));
            assert(all.take(i + 1).drop_last() =~= all.take(i as int));
            assert(all.take(i + 1).last() == fields@[i as int]@);
            assert(founds.push(found).drop_last() =~= founds);
            founds = founds.push(found);
        }
        i += 1;
    }
    proof {
        assert(all.take(fields@.len() as int) =~= all);
    }
    out
}

/// Expand one word into argv entries: brace expansion (bash-style, first),
/// then per resulting word variable/tilde expansion, word splitting and
/// globbing, for which `find` looks for the paths on disk.
pub fn expand_glob_word<F: Fn(&str, GlobOptions) -> Paths>(
    parts: &[Part],
    env: &Env,
    last_status: i32,
    find: &F,
) -> (r: Vec<String>)
    requires
        can_find(*find),
    ensures
        globs_to(*find, word_fields(part_views(parts@), env@, last_status), texts(r@)),
{
    let fields = expand_fields(parts, env, last_status);
    glob_fields(fields.as_slice(), find)
}

/// Expand the words of a command into argv entries; `find` looks for the paths
/// on disk.
pub fn expand_argv<F: Fn(&str, GlobOptions) -> Paths>(
    argv: &[Vec<Part>],
    env: &Env,
    last_status: i32,
    find: &F,
) -> (r: Vec<String>)
    requires
        can_find(*find),
    ensures
        globs_to(*find, argv_fields(word_views(argv@), env@, last_status), texts(r@)),
{
    let fields = expand_argv_fields(argv, env, last_status);
    glob_fields(fields.as_slice(), find)
}

/// The fields of the words of a command, before globbing.
pub fn expand_argv_fields(argv: &[Vec<Part>], env: &Env, last_status: i32) -> (r: Vec<Field>)
    ensures
        field_views(r@) == argv_fields(word_views(argv@), env@, last_status),
{
    let ghost all = word_views(argv@);
    let mut out: Vec<Field> = Vec::new();
    let mut i: usize = 0;
    proof {
        assert(field_views(out@) =~= argv_fields(all.take(0), env@, last_status));
    }
    while i < argv.len()
        invariant
            all == word_views(argv@),
            i <= argv@.len(),
            field_views(out@) == argv_fields(all.take(i as int), env@, last_status),
        decreases argv.len() - i,
    {
        let mut fields = expand_fields(argv[i].as_slice(), env, last_status);
        let ghost old_out = out@;
        let ghost old_fields = fields@;
        out.append(&mut fields);
        proof {
            assert(out@ == old_out + old_fields);
            assert(field_views(out@) =~= field_views(old_out) + field_views(old_fields));
            assert(all.take(i + 1).drop_last() =~= all.take(i as int));
            assert(all.take(i + 1).last() == part_views(argv@[i as int]@));
        }
        i += 1;
    }
    proof {
        assert(all.take(argv@.len() as int) =~= all);
    }
    out
}

// ---------------------------------------------------------------------------
// Laws.

/// No segment comes from an unquoted expansion.
pub open spec fn none_expanded(segs: Seq<SegView>) -> bool {
    forall|k: int| 0 <= k < segs.len() ==> !(#[trigger] segs[k] is Expanded)
}

proof fn lemma_merged_same(segs: Seq<SegView>)
    requires
        none_expanded(segs),
    ensures
        merged(segs) == segs,
    decreases segs.len(),
{
    if segs.len() > 0 {
        let head = segs.drop_last();
        assert forall|k: int| 0 <= k < head.len() implies !(#[trigger] head[k] is Expanded) by {
            assert(!(segs[k] is Expanded));
        }
        lemma_merged_same(head);
        assert(!(segs[segs.len() - 1] is Expanded));
        assert(head.push(segs.last()) =~= segs);
    } else {
        assert(segs =~= Seq::<SegView>::empty());
    }
}

/// Literal and quoted text never splits: a word of such segments is one field,
/// whose text is theirs in order.
pub proof fn law_literals_never_split(segs: Seq<SegView>, ifs: Seq<char>)
    requires
        segs.len() > 0,
        none_expanded(segs),
    ensures
        fields_of(segs, ifs).len() == 1,
        fields_of(segs, ifs)[0].text == segments_text(segs),
{
    lemma_merged_same(segs);
    lemma_one_field(segs, ifs);
}

proof fn lemma_one_field(segs: Seq<SegView>, ifs: Seq<char>)
    requires
        segs.len() > 0,
        none_expanded(segs),
    ensures
        after_segments(segs, ifs).done.len() == 0,
        after_segments(segs, ifs).current is Some,
        after_segments(segs, ifs).current->0.text == segments_text(segs),
    decreases segs.len(),
{
    let head = segs.drop_last();
    assert(!(segs[segs.len() - 1] is Expanded));
    if head.len() > 0 {
        assert forall|k: int| 0 <= k < head.len() implies !(#[trigger] head[k] is Expanded) by {
            assert(!(segs[k] is Expanded));
        }
        lemma_one_field(head, ifs);
    } else {
        assert(segments_text(head) =~= Seq::<char>::empty());
    }
    assert(segments_text(segs) == segments_text(head) + segs.last().text());
    assert(Seq::<char>::empty() + segs.last().text() =~= segs.last().text());
}

/// Quoted text is never a pattern: a word of quoted segments is one field
/// that is not globbed, whatever it holds.
pub proof fn law_quoted_never_globs(segs: Seq<SegView>, ifs: Seq<char>)
    requires
        segs.len() > 0,
        forall|k: int| 0 <= k < segs.len() ==> #[trigger] segs[k] is Quoted,
    ensures
        fields_of(segs, ifs).len() == 1,
        !fields_of(segs, ifs)[0].has_meta,
{
    assert forall|k: int| 0 <= k < segs.len() implies !(#[trigger] segs[k] is Expanded) by {
        assert(segs[k] is Quoted);
    }
    lemma_merged_same(segs);
    lemma_one_field(segs, ifs);
    lemma_quoted_field(segs, ifs);
}

proof fn lemma_quoted_field(segs: Seq<SegView>, ifs: Seq<char>)
    requires
        forall|k: int| 0 <= k < segs.len() ==> #[trigger] segs[k] is Quoted,
    ensures
        after_segments(segs, ifs).current matches Some(field) ==> !field.has_meta,
    decreases segs.len(),
{
    if segs.len() > 0 {
        let head = segs.drop_last();
        assert(segs[segs.len() - 1] is Quoted);
        assert forall|k: int| 0 <= k < head.len() implies #[trigger] head[k] is Quoted by {
            assert(segs[k] is Quoted);
        }
        lemma_quoted_field(head, ifs);
    }
}

/// Neighbouring unquoted expansions behave as one concatenated text.
pub proof fn law_neighbours_concatenate(
    segs: Seq<SegView>,
    a: Seq<char>,
    b: Seq<char>,
    ifs: Seq<char>,
)
    ensures
        fields_of(segs.push(SegView::Expanded(a)).push(SegView::Expanded(b)), ifs) == fields_of(
            segs.push(SegView::Expanded(a + b)),
            ifs,
        ),
{
    let one = segs.push(SegView::Expanded(a));
    let two = one.push(SegView::Expanded(b));
    let whole = segs.push(SegView::Expanded(a + b));
    assert(one.drop_last() =~= segs);
    assert(two.drop_last() =~= one);
    assert(whole.drop_last() =~= segs);
    let before = merged(segs);
    if before.len() > 0 && before.last() is Expanded {
        let t = before.last().text();
        assert((t + a) + b =~= t + (a + b));
        assert(merged(one).drop_last() =~= before.drop_last());
        assert(merged(two) =~= merged(whole));
    } else {
        assert(merged(one).drop_last() =~= before);
        assert(merged(two) =~= merged(whole));
    }
}

/// An expansion to nothing contributes nothing.
pub proof fn law_empty_expansion_disappears(ifs: Seq<char>)
    ensures
        fields_of(seq![SegView::Expanded(Seq::empty())], ifs) == Seq::<FieldView>::empty(),
{
    let seg = SegView::Expanded(Seq::empty());
    let segs = seq![seg];
    assert(segs.drop_last() =~= Seq::<SegView>::empty());
    assert(merged(segs.drop_last()) == Seq::<SegView>::empty());
    assert(merged(segs) =~= segs);
    let start = after_segments(segs.drop_last(), ifs);
    assert(start.done == Seq::<FieldView>::empty());
    assert(split_from(start, Seq::empty(), ifs, 0) == start);
}

/// The text holds no splitting character.
pub open spec fn unsplit(text: Seq<char>, ifs: Seq<char>) -> bool {
    forall|k: int| 0 <= k < text.len() ==> !ifs.contains(#[trigger] text[k])
}

/// The fields of `state` hold no splitting character; with `full`, none of
/// them is empty either.
spec fn clean(state: Splitting, ifs: Seq<char>, full: bool) -> bool {
    &&& forall|k: int|
        0 <= k < state.done.len() ==> unsplit((#[trigger] state.done[k]).text, ifs) && (full
            ==> state.done[k].text.len() > 0)
    &&& state.current matches Some(field) ==> unsplit(field.text, ifs) && (full
        ==> field.text.len() > 0)
}

proof fn lemma_split_clean(state: Splitting, t: Seq<char>, ifs: Seq<char>, i: int, full: bool)
    requires
        0 <= i <= t.len(),
        clean(state, ifs, full),
        full ==> forall|k: int| 0 <= k < ifs.len() ==> is_white_space(#[trigger] ifs[k]),
    ensures
        clean(split_from(state, t, ifs, i), ifs, full),
    decreases t.len() - i,
{
    if i < t.len() {
        let start = delimiter_end(t, ifs, i);
        let end = content_end(t, ifs, start);
        lemma_progress(t, ifs, i);
        lemma_soft_end(t, ifs, i);
        if hard_at(t, ifs, i) {
            lemma_soft_end(t, ifs, soft_end(t, ifs, i) + 1);
        }
        lemma_content_end(t, ifs, start);
        let piece = t.subrange(start, end);
        assert forall|k: int| 0 <= k < piece.len() implies !ifs.contains(#[trigger] piece[k]) by {
            assert(piece[k] == t[start + k]);
        }
        if full {
            if hard_at(t, ifs, i) {
                let c = t[soft_end(t, ifs, i)];
                let m = choose|m: int| 0 <= m < ifs.len() && ifs[m] == c;
                assert(is_white_space(ifs[m]));
                assert(false);
            }
            if start < t.len() {
                assert(!ifs.contains(t[start])) by {
                    if ifs.contains(t[start]) {
                        let m = choose|m: int| 0 <= m < ifs.len() && ifs[m] == t[start];
                        assert(is_white_space(ifs[m]));
                        assert(soft(ifs, t[start]));
                    }
                }
                assert(content_end(t, ifs, start) > start) by {
                    lemma_content_end(t, ifs, start + 1);
                }
            }
        }
        if start == i {
            let field = state.open_field().with_live(piece);
            let next = state.growing(field);
            assert(unsplit(field.text, ifs)) by {
                let head = state.open_field().text;
                assert forall|k: int| 0 <= k < field.text.len() implies !ifs.contains(
                    #[trigger] field.text[k],
                ) by {
                    if k < head.len() {
                        assert(field.text[k] == head[k]);
                    } else {
                        assert(field.text[k] == piece[k - head.len()]);
                    }
                }
            }
            lemma_split_clean(next, t, ifs, end, full);
        } else {
            let closed = state.closed_by(hard_at(t, ifs, i));
            assert(clean(closed, ifs, full));
            if start < t.len() {
                let field = empty_field().with_live(piece);
                assert(field.text =~= piece);
                lemma_split_clean(closed.growing(field), t, ifs, end, full);
            }
        }
    }
}

/// The fields of an unquoted expansion hold no splitting character.
pub proof fn law_fields_hold_no_separator(t: Seq<char>, ifs: Seq<char>)
    ensures
        forall|k: int|
            0 <= k < fields_of(seq![SegView::Expanded(t)], ifs).len() ==> unsplit(
                (#[trigger] fields_of(seq![SegView::Expanded(t)], ifs)[k]).text,
                ifs,
            ),
{
    lemma_expansion_clean(t, ifs, false);
}

/// Where only white space splits, no field of an unquoted expansion is empty:
/// runs of it collapse, and it yields nothing at the ends.
pub proof fn law_white_space_yields_no_empty_field(t: Seq<char>, ifs: Seq<char>)
    requires
        forall|k: int| 0 <= k < ifs.len() ==> is_white_space(#[trigger] ifs[k]),
    ensures
        forall|k: int|
            0 <= k < fields_of(seq![SegView::Expanded(t)], ifs).len() ==> (#[trigger] fields_of(
                seq![SegView::Expanded(t)],
                ifs,
            )[k]).text.len() > 0,
{
    lemma_expansion_clean(t, ifs, true);
}

proof fn lemma_expansion_clean(t: Seq<char>, ifs: Seq<char>, full: bool)
    requires
        full ==> forall|k: int| 0 <= k < ifs.len() ==> is_white_space(#[trigger] ifs[k]),
    ensures
        clean(after_segments(merged(seq![SegView::Expanded(t)]), ifs), ifs, full),
{
    let segs = seq![SegView::Expanded(t)];
    assert(segs.drop_last() =~= Seq::<SegView>::empty());
    assert(merged(segs.drop_last()) == Seq::<SegView>::empty());
    assert(merged(segs) =~= segs);
    lemma_split_clean(after_segments(segs.drop_last(), ifs), t, ifs, 0, full);
}

/// A plain word stands for itself: a literal without `{` is one field with
/// the literal's text, which is looked for on disk only when it holds a
/// metacharacter.
pub proof fn law_plain_word(text: Seq<char>, vars: Vars, last_status: i32)
    requires
        !text.contains('{'),
    ensures
        word_fields(seq![PartView::Lit(text)], vars, last_status) == seq![
            FieldView { text, pattern: text, has_meta: has_meta(text) },
        ],
{
    let part = PartView::Lit(text);
    let parts = seq![part];
    let none = Seq::<PartView>::empty();
    crate::brace::law_no_brace_no_change(text);
    assert(parts.drop_last() =~= none);
    assert(crate::brace::part_choices(part) =~= seq![part]);
    let nothing = seq![none];
    assert(nothing.drop_last() =~= Seq::<Seq<PartView>>::empty());
    assert(crate::brace::crossed(nothing.drop_last(), seq![part])
        =~= Seq::<Seq<PartView>>::empty());
    assert(crate::brace::with_choices(none, seq![part]) =~= seq![parts]) by {
        assert(none.push(part) =~= parts);
    }
    assert(variants(parts.drop_last()) == nothing);
    assert(variants(parts) =~= seq![parts]);
    assert(seq![parts].drop_last() =~= Seq::<Seq<PartView>>::empty());
    let seg = SegView::Lit(text);
    assert(segments(parts.drop_last(), vars, last_status) == Seq::<SegView>::empty());
    assert(segments(parts, vars, last_status) =~= seq![seg]);
    let segs = seq![seg];
    assert(segs.drop_last() =~= Seq::<SegView>::empty());
    assert(merged(segs.drop_last()) == Seq::<SegView>::empty());
    assert(merged(segs) =~= segs);
    let ifs = separators(vars);
    let field = FieldView { text, pattern: text, has_meta: has_meta(text) };
    assert(empty_field().with_live(text) == field) by {
        assert(Seq::<char>::empty() + text =~= text);
    }
    let start = after_segments(segs.drop_last(), ifs);
    assert(start == Splitting { done: Seq::empty(), current: None });
    assert(after_segments(segs, ifs) == start.growing(field));
    assert(fields_of(segs, ifs) =~= seq![field]);
    assert(all_fields(seq![parts].drop_last(), vars, last_status) =~= Seq::<FieldView>::empty());
    assert(all_fields(seq![parts], vars, last_status) =~= seq![field]);
}

/// Fields without metacharacters stay as they are, whatever is on disk.
pub proof fn law_plain_fields_stay<F: Fn(&str, GlobOptions) -> Paths>(
    find: F,
    fields: Seq<FieldView>,
    out: Seq<Seq<char>>,
)
    requires
        globs_to(find, fields, out),
        forall|k: int| 0 <= k < fields.len() ==> !(#[trigger] fields[k]).has_meta,
    ensures
        out == Seq::new(fields.len(), |k: int| fields[k].text),
{
    let founds = choose|founds: Seq<Found>|
        {
            &&& founds.len() == fields.len()
            &&& forall|i: int|
                0 <= i < fields.len() ==> found_for(find, fields[i], #[trigger] founds[i])
            &&& out == #[trigger] globbed(fields, founds)
        };
    lemma_plain_globbed(fields, founds);
}

proof fn lemma_plain_globbed(fields: Seq<FieldView>, founds: Seq<Found>)
    requires
        founds.len() == fields.len(),
        forall|k: int| 0 <= k < fields.len() ==> !(#[trigger] fields[k]).has_meta,
    ensures
        globbed(fields, founds) == Seq::new(fields.len(), |k: int| fields[k].text),
    decreases fields.len(),
{
    let all = Seq::new(fields.len(), |k: int| fields[k].text);
    if fields.len() > 0 {
        let head = fields.drop_last();
        assert forall|k: int| 0 <= k < head.len() implies !(#[trigger] head[k]).has_meta by {
            assert(!fields[k].has_meta);
        }
        lemma_plain_globbed(head, founds.drop_last());
        assert(!fields[fields.len() - 1].has_meta);
        assert(globbed(fields, founds) =~= all);
    } else {
        assert(globbed(fields, founds) =~= all);
    }
}

} // verus!
