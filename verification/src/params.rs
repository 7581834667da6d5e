//! What `${...}` and the words in it expand to.

use vstd::prelude::*;

use crate::arith::Vars;
use crate::expand::{
    brace_end, expanded_word, param_end, param_text, segments, segments_text, word_text, Quote,
};
use crate::lexer::{at, lemma_name_end, name_end, PartView};
use crate::number::{decimal, digits};
use crate::pattern::stripped;
use crate::spreading::open_braces;
use crate::text::is_name_char;

verus! {

// ---------------------------------------------------------------------------
// Words further on.

/// `t` is `s` from `off` on.
spec fn goes_from(s: Seq<char>, off: int, t: Seq<char>) -> bool {
    &&& 0 <= off
    &&& s.len() == off + t.len()
    &&& forall|k: int| 0 <= k < t.len() ==> s[off + k] == #[trigger] t[k]
}

proof fn lemma_move_brace_end(s: Seq<char>, off: int, t: Seq<char>, i: int, depth: nat)
    requires
        goes_from(s, off, t),
        0 <= i,
    ensures
        brace_end(s, off + i, depth) == match brace_end(t, i, depth) {
            Some(end) => Some(end + off),
            None => None,
        },
    decreases t.len() - i,
{
    if depth > 0 && i < t.len() {
        assert(s[off + i] == t[i]);
        if t[i] == '{' {
            lemma_move_brace_end(s, off, t, i + 1, depth + 1);
        } else if t[i] == '}' {
            lemma_move_brace_end(s, off, t, i + 1, (depth - 1) as nat);
        } else {
            lemma_move_brace_end(s, off, t, i + 1, depth);
        }
    }
}

proof fn lemma_move_name_end(s: Seq<char>, off: int, t: Seq<char>, i: int)
    requires
        goes_from(s, off, t),
        0 <= i,
    ensures
        name_end(s, off + i) == name_end(t, i) + off,
    decreases t.len() - i,
{
    if i < t.len() {
        assert(s[off + i] == t[i]);
        if is_name_char(t[i]) {
            lemma_move_name_end(s, off, t, i + 1);
        }
    }
}

proof fn lemma_same_part(s: Seq<char>, off: int, t: Seq<char>, i: int, k: int)
    requires
        goes_from(s, off, t),
        0 <= i <= k <= t.len(),
    ensures
        s.subrange(off + i, off + k) == t.subrange(i, k),
{
    assert forall|j: int| 0 <= j < k - i implies s[off + i + j] == #[trigger] t[i + j] by {
        assert(s[off + (i + j)] == t[i + j]);
    }
    assert(s.subrange(off + i, off + k) =~= t.subrange(i, k));
}

proof fn lemma_move_word(
    s: Seq<char>,
    off: int,
    t: Seq<char>,
    i: int,
    quote: Quote,
    vars: Vars,
    last_status: i32,
)
    requires
        goes_from(s, off, t),
        0 <= i,
    ensures
        word_text(s, off + i, quote, vars, last_status) == word_text(
            t,
            i,
            quote,
            vars,
            last_status,
        ),
    decreases t.len() - i,
{
    if i < t.len() {
        assert(s[off + i] == t[i]);
        if i + 1 < t.len() {
            assert(s[off + (i + 1)] == t[i + 1]);
            lemma_move_word(s, off, t, i + 2, quote, vars, last_status);
        }
        lemma_move_word(s, off, t, i + 1, Quote::Plain, vars, last_status);
        lemma_move_word(s, off, t, i + 1, Quote::Single, vars, last_status);
        lemma_move_word(s, off, t, i + 1, Quote::Double, vars, last_status);
        if t[i] == '$' {
            if at(t, i + 1, '{') {
                lemma_move_brace_end(s, off, t, i + 2, 1);
                if let Some(end) = brace_end(t, i + 2, 1) {
                    if i + 2 < end <= t.len() {
                        lemma_move_word(s, off, t, end, quote, vars, last_status);
                        lemma_same_part(s, off, t, i + 2, end - 1);
                    }
                }
            } else {
                lemma_move_name_end(s, off, t, i + 1);
                lemma_name_end(t, i + 1);
                let end = if at(t, i + 1, '?') {
                    i + 2
                } else {
                    name_end(t, i + 1)
                };
                if i + 1 < end <= t.len() {
                    lemma_move_word(s, off, t, end, quote, vars, last_status);
                    lemma_same_part(s, off, t, i + 1, end);
                }
            }
        }
    }
}

/// What a word expands to.
pub open spec fn plain_word(s: Seq<char>, vars: Vars, last_status: i32) -> Seq<char> {
    word_text(s, 0, Quote::Plain, vars, last_status)
}

// ---------------------------------------------------------------------------
// Words.

/// In the word of an operator an ordinary character stands for itself, and so
/// does any character after a backslash.
pub proof fn law_word_characters(c: char, rest: Seq<char>, vars: Vars, last_status: i32)
    ensures
        c != '\\' && c != '\'' && c != '"' && c != '$' ==> plain_word(
            seq![c] + rest,
            vars,
            last_status,
        ) == seq![c] + plain_word(rest, vars, last_status),
        plain_word(seq!['\\', c] + rest, vars, last_status) == seq![c] + plain_word(
            rest,
            vars,
            last_status,
        ),
        plain_word(Seq::empty(), vars, last_status) == Seq::<char>::empty(),
{
    let a = seq![c] + rest;
    lemma_move_word(a, 1, rest, 0, Quote::Plain, vars, last_status);
    assert(a[0] == c);
    let b = seq!['\\', c] + rest;
    lemma_move_word(b, 2, rest, 0, Quote::Plain, vars, last_status);
    assert(b[0] == '\\' && b[1] == c);
}

proof fn lemma_single_quoted(
    s: Seq<char>,
    text: Seq<char>,
    i: int,
    k: int,
    vars: Vars,
    last_status: i32,
)
    requires
        1 <= i == k + 1,
        k <= text.len(),
        text.len() + 2 <= s.len(),
        !text.contains('\''),
        forall|j: int| 0 <= j < text.len() ==> s[j + 1] == #[trigger] text[j],
        s[text.len() as int + 1] == '\'',
    ensures
        word_text(s, i, Quote::Single, vars, last_status) == text.skip(k) + word_text(
            s,
            text.len() as int + 2,
            Quote::Plain,
            vars,
            last_status,
        ),
    decreases text.len() - k,
{
    let after = word_text(s, text.len() as int + 2, Quote::Plain, vars, last_status);
    if k == text.len() {
        assert(text.skip(k) + after =~= after);
    } else {
        assert(s[k + 1] == text[k]);
        assert(text.contains(text[k]));
        lemma_single_quoted(s, text, i + 1, k + 1, vars, last_status);
        assert(seq![s[i]] + (text.skip(k + 1) + after) =~= text.skip(k) + after);
    }
}

proof fn lemma_double_quoted(
    s: Seq<char>,
    text: Seq<char>,
    i: int,
    k: int,
    vars: Vars,
    last_status: i32,
)
    requires
        1 <= i == k + 1,
        k <= text.len(),
        text.len() + 2 <= s.len(),
        !text.contains('"'),
        !text.contains('\\'),
        !text.contains('$'),
        forall|j: int| 0 <= j < text.len() ==> s[j + 1] == #[trigger] text[j],
        s[text.len() as int + 1] == '"',
    ensures
        word_text(s, i, Quote::Double, vars, last_status) == text.skip(k) + word_text(
            s,
            text.len() as int + 2,
            Quote::Plain,
            vars,
            last_status,
        ),
    decreases text.len() - k,
{
    let after = word_text(s, text.len() as int + 2, Quote::Plain, vars, last_status);
    if k == text.len() {
        assert(text.skip(k) + after =~= after);
    } else {
        assert(s[k + 1] == text[k]);
        assert(text.contains(text[k]));
        lemma_double_quoted(s, text, i + 1, k + 1, vars, last_status);
        assert(seq![s[i]] + (text.skip(k + 1) + after) =~= text.skip(k) + after);
    }
}

/// Quotes are removed from the word of an operator: between single quotes every
/// character stands for itself, between double quotes every character but the
/// backslash and the dollar sign, single quotes included.
pub proof fn law_word_quotes(text: Seq<char>, rest: Seq<char>, vars: Vars, last_status: i32)
    ensures
        !text.contains('\'') ==> plain_word(
            seq!['\''] + text + seq!['\''] + rest,
            vars,
            last_status,
        ) == text + plain_word(rest, vars, last_status),
        !text.contains('"') && !text.contains('\\') && !text.contains('$') ==> plain_word(
            seq!['"'] + text + seq!['"'] + rest,
            vars,
            last_status,
        ) == text + plain_word(rest, vars, last_status),
{
    let n = text.len() as int;
    assert(text.skip(0) =~= text);
    if !text.contains('\'') {
        let s = seq!['\''] + text + seq!['\''] + rest;
        assert(s[0] == '\'');
        lemma_single_quoted(s, text, 1, 0, vars, last_status);
        lemma_move_word(s, n + 2, rest, 0, Quote::Plain, vars, last_status);
    }
    if !text.contains('"') && !text.contains('\\') && !text.contains('$') {
        let s = seq!['"'] + text + seq!['"'] + rest;
        assert(s[0] == '"');
        lemma_double_quoted(s, text, 1, 0, vars, last_status);
        lemma_move_word(s, n + 2, rest, 0, Quote::Plain, vars, last_status);
    }
}

proof fn lemma_names(s: Seq<char>, i: int, k: int)
    requires
        0 <= i <= k <= s.len(),
        forall|j: int| i <= j < k ==> is_name_char(#[trigger] s[j]),
        k < s.len() ==> !is_name_char(s[k]),
    ensures
        name_end(s, i) == k,
    decreases k - i,
{
    if i < k {
        assert(is_name_char(s[i]));
        lemma_names(s, i + 1, k);
    }
}

/// Letters, digits and `_`, at least one.
pub open spec fn all_name_chars(name: Seq<char>) -> bool {
    name.len() > 0 && forall|k: int| 0 <= k < name.len() ==> is_name_char(#[trigger] name[k])
}

/// A variable in the word of an operator stands for its value, or for nothing
/// where it is unset; the longest name counts. `$?` is the last status, and a
/// `$` before anything else stands for itself.
pub proof fn law_word_variables(
    name: Seq<char>,
    rest: Seq<char>,
    vars: Vars,
    last_status: i32,
)
    requires
        all_name_chars(name),
        rest.len() > 0 ==> !is_name_char(rest[0]),
    ensures
        vars.contains_key(name) ==> plain_word(seq!['$'] + name + rest, vars, last_status)
            == vars[name] + plain_word(rest, vars, last_status),
        !vars.contains_key(name) ==> plain_word(seq!['$'] + name + rest, vars, last_status)
            == plain_word(rest, vars, last_status),
        plain_word(seq!['$', '?'] + rest, vars, last_status) == decimal(last_status as int)
            + plain_word(rest, vars, last_status),
        rest.len() > 0 && rest[0] != '{' && rest[0] != '?' ==> plain_word(
            seq!['$'] + rest,
            vars,
            last_status,
        ) == seq!['$'] + plain_word(rest, vars, last_status),
        plain_word(seq!['$'], vars, last_status) == seq!['$'],
{
    let s = seq!['$'] + name + rest;
    let k = 1 + name.len() as int;
    assert forall|j: int| 1 <= j < k implies is_name_char(#[trigger] s[j]) by {
        assert(s[j] == name[j - 1]);
    }
    if k < s.len() {
        assert(s[k] == rest[0]);
    }
    lemma_names(s, 1, k);
    assert(s.subrange(1, k) =~= name);
    assert(s[1] == name[0]);
    assert(is_name_char(name[0]));
    lemma_move_word(s, k, rest, 0, Quote::Plain, vars, last_status);
    let none = Seq::<char>::empty();
    let after = plain_word(rest, vars, last_status);
    assert(none + after =~= after);
    assert(name != seq!['?']) by {
        assert(is_name_char(name[0]));
    }
    let t = seq!['$', '?'] + rest;
    assert(t[0] == '$' && t[1] == '?');
    assert(t.subrange(1, 2) =~= seq!['?']);
    lemma_move_word(t, 2, rest, 0, Quote::Plain, vars, last_status);
    let u = seq!['$'] + rest;
    lemma_move_word(u, 1, rest, 0, Quote::Plain, vars, last_status);
    if rest.len() > 0 {
        assert(u[1] == rest[0]);
        lemma_names(u, 1, 1);
    }
    let v = seq!['$'];
    assert(name_end(v, 1) == 1);
    assert(seq!['$'] + none =~= v);
    assert(word_text(v, 1, Quote::Plain, vars, last_status) == none);
}

proof fn lemma_brace_end(s: Seq<char>, off: int, body: Seq<char>, i: int)
    requires
        0 <= off,
        off + body.len() < s.len(),
        forall|k: int| 0 <= k < body.len() ==> s[off + k] == #[trigger] body[k],
        s[off + body.len()] == '}',
        forall|i: int| 0 <= i <= body.len() ==> #[trigger] open_braces(body, i) >= 0,
        open_braces(body, body.len() as int) == 0,
        0 <= i <= body.len(),
    ensures
        brace_end(s, off + i, (1 + open_braces(body, i)) as nat) == Some(
            off + body.len() + 1,
        ),
    decreases body.len() - i,
{
    assert(open_braces(body, i) >= 0);
    if i < body.len() {
        assert(s[off + i] == body[i]);
        assert(open_braces(body, i + 1) >= 0);
        lemma_brace_end(s, off, body, i + 1);
    } else {
        assert(brace_end(s, off + body.len() + 1, 0) == Some(off + body.len() + 1));
    }
}

/// A `${...}` in the word of an operator is expanded in its turn; it ends at
/// the brace that closes it.
pub proof fn law_word_nesting(body: Seq<char>, rest: Seq<char>, vars: Vars, last_status: i32)
    requires
        forall|i: int| 0 <= i <= body.len() ==> #[trigger] open_braces(body, i) >= 0,
        open_braces(body, body.len() as int) == 0,
    ensures
        plain_word(seq!['$', '{'] + body + seq!['}'] + rest, vars, last_status) == param_text(
            body,
            vars,
            last_status,
        ) + plain_word(rest, vars, last_status),
{
    let s = seq!['$', '{'] + body + seq!['}'] + rest;
    let end = 3 + body.len() as int;
    assert(s[0] == '$' && s[1] == '{');
    lemma_brace_end(s, 2, body, 0);
    assert(open_braces(body, 0) == 0);
    assert(brace_end(s, 2, 1) == Some(end));
    assert(s.subrange(2, end - 1) =~= body);
    lemma_move_word(s, end, rest, 0, Quote::Plain, vars, last_status);
}

// ---------------------------------------------------------------------------
// Parameters.

proof fn lemma_param_end(s: Seq<char>, i: int, k: int)
    requires
        0 <= i <= k <= s.len(),
        forall|j: int| i <= j < k ==> is_name_char(#[trigger] s[j]),
        k < s.len() ==> !is_name_char(s[k]) && s[k] != '?',
    ensures
        param_end(s, i) == k,
    decreases k - i,
{
    if i < k {
        assert(is_name_char(s[i]));
        lemma_param_end(s, i + 1, k);
    }
}

/// The body of a `${...}`: a name and what follows it.
proof fn lemma_param(name: Seq<char>, rest: Seq<char>)
    requires
        all_name_chars(name),
        rest.len() > 0 ==> !is_name_char(rest[0]) && rest[0] != '?',
    ensures
        param_end(name + rest, 0) == name.len(),
        (name + rest).take(name.len() as int) == name,
        (name + rest).skip(name.len() as int) == rest,
        !at(name + rest, 0, '#'),
        name != seq!['?'],
{
    let s = name + rest;
    let n = name.len() as int;
    assert forall|j: int| 0 <= j < n implies is_name_char(#[trigger] s[j]) by {
        assert(s[j] == name[j]);
    }
    if n < s.len() {
        assert(s[n] == rest[0]);
    }
    lemma_param_end(s, 0, n);
    assert(s.take(n) =~= name);
    assert(s.skip(n) =~= rest);
    assert(is_name_char(s[0]));
    assert(is_name_char(name[0]));
}

/// `${NAME}` is the value of the variable and `${#NAME}` its length; nothing
/// and 0 where it is unset.
pub proof fn law_param_values(name: Seq<char>, vars: Vars, last_status: i32)
    requires
        all_name_chars(name),
    ensures
        vars.contains_key(name) ==> param_text(name, vars, last_status) == vars[name],
        !vars.contains_key(name) ==> param_text(name, vars, last_status) == Seq::<char>::empty(),
        vars.contains_key(name) ==> param_text(seq!['#'] + name, vars, last_status) == digits(
            vars[name].len(),
        ),
        !vars.contains_key(name) ==> param_text(seq!['#'] + name, vars, last_status) == seq!['0'],
        param_text(seq!['?'], vars, last_status) == decimal(last_status as int),
        param_text(seq!['#', '?'], vars, last_status) == digits(
            decimal(last_status as int).len(),
        ),
{
    let none = Seq::<char>::empty();
    assert(name + none =~= name);
    lemma_param(name, none);
    assert((seq!['#'] + name).skip(1) =~= name);
    let q = seq!['?'];
    assert(param_end(q, 1) == 1);
    assert(param_end(q, 0) == 1);
    assert(q.take(1) =~= q);
    assert(seq!['#', '?'].skip(1) =~= q);
}

/// `${NAME-word}` is the value where the variable is set and the word where it
/// is not, `${NAME+word}` the word where it is set and nothing where it is not;
/// with a colon an empty value counts as none.
pub proof fn law_param_defaults(
    name: Seq<char>,
    word: Seq<char>,
    vars: Vars,
    last_status: i32,
)
    requires
        all_name_chars(name),
    ensures
        ({
            let set = vars.contains_key(name);
            let full = set && vars[name].len() > 0;
            let other = plain_word(word, vars, last_status);
            let none = Seq::<char>::empty();
            let with = |op: Seq<char>| param_text(name + op + word, vars, last_status);
            &&& set ==> with(seq!['-']) == vars[name]
            &&& !set ==> with(seq!['-']) == other
            &&& full ==> with(seq![':', '-']) == vars[name]
            &&& !full ==> with(seq![':', '-']) == other
            &&& set ==> with(seq!['+']) == other
            &&& !set ==> with(seq!['+']) == none
            &&& full ==> with(seq![':', '+']) == other
            &&& !full ==> with(seq![':', '+']) == none
        }),
{
    let n = name.len() as int;
    let a = seq!['-'] + word;
    let b = seq![':', '-'] + word;
    let c = seq!['+'] + word;
    let d = seq![':', '+'] + word;
    lemma_param(name, a);
    lemma_param(name, b);
    lemma_param(name, c);
    lemma_param(name, d);
    let s = name + seq!['-'] + word;
    assert(s =~= name + a);
    assert(s[n] == '-');
    assert(s.skip(n + 1) =~= word);
    let t = name + seq![':', '-'] + word;
    assert(t =~= name + b);
    assert(t[n] == ':' && t[n + 1] == '-');
    assert(t.skip(n + 2) =~= word);
    let u = name + seq!['+'] + word;
    assert(u =~= name + c);
    assert(u[n] == '+');
    assert(u.skip(n + 1) =~= word);
    let v = name + seq![':', '+'] + word;
    assert(v =~= name + d);
    assert(v[n] == ':' && v[n + 1] == '+');
    assert(v.skip(n + 2) =~= word);
}

/// `${NAME#word}` and `${NAME##word}` strip the shortest and the longest prefix
/// that the word matches, `${NAME%word}` and `${NAME%%word}` the shortest and
/// the longest suffix; of an unset variable nothing is left.
pub proof fn law_param_strips(
    name: Seq<char>,
    word: Seq<char>,
    vars: Vars,
    last_status: i32,
)
    requires
        all_name_chars(name),
        word.len() > 0 ==> word[0] != '#' && word[0] != '%',
    ensures
        ({
            let value = if vars.contains_key(name) {
                vars[name]
            } else {
                Seq::empty()
            };
            let pattern = plain_word(word, vars, last_status);
            let with = |op: Seq<char>| param_text(name + op + word, vars, last_status);
            &&& with(seq!['#']) == stripped(value, pattern, true, false)
            &&& with(seq!['#', '#']) == stripped(value, pattern, true, true)
            &&& with(seq!['%']) == stripped(value, pattern, false, false)
            &&& with(seq!['%', '%']) == stripped(value, pattern, false, true)
        }),
{
    let n = name.len() as int;
    let a = seq!['#'] + word;
    let b = seq!['#', '#'] + word;
    let c = seq!['%'] + word;
    let d = seq!['%', '%'] + word;
    lemma_param(name, a);
    lemma_param(name, b);
    lemma_param(name, c);
    lemma_param(name, d);
    let s = name + seq!['#'] + word;
    assert(s =~= name + a);
    assert(s[n] == '#');
    assert(s.skip(n + 1) =~= word);
    let t = name + seq!['#', '#'] + word;
    assert(t =~= name + b);
    assert(t[n] == '#' && t[n + 1] == '#');
    assert(t.skip(n + 1) =~= a);
    assert(a.skip(1) =~= word);
    let u = name + seq!['%'] + word;
    assert(u =~= name + c);
    assert(u[n] == '%');
    assert(u.skip(n + 1) =~= word);
    let v = name + seq!['%', '%'] + word;
    assert(v =~= name + d);
    assert(v[n] == '%' && v[n + 1] == '%');
    assert(v.skip(n + 1) =~= c);
    assert(c.skip(1) =~= word);
}

/// Any other form expands to nothing.
pub proof fn law_other_params_vanish(
    name: Seq<char>,
    c: char,
    word: Seq<char>,
    vars: Vars,
    last_status: i32,
)
    requires
        all_name_chars(name),
        !is_name_char(c),
        c != '?',
        c != '-',
        c != '+',
    ensures
        c != '#' && c != '%' && c != ':' ==> param_text(
            name + seq![c] + word,
            vars,
            last_status,
        ) == Seq::<char>::empty(),
        param_text(name + seq![':', c] + word, vars, last_status) == Seq::<char>::empty(),
        param_text(name + seq![':'], vars, last_status) == Seq::<char>::empty(),
        c != '#' ==> param_text(seq![c] + word, vars, last_status) == Seq::<char>::empty(),
{
    let n = name.len() as int;
    let s = name + seq![c] + word;
    lemma_param(name, seq![c] + word);
    assert(s =~= name + (seq![c] + word));
    assert(s[n] == c);
    let t = name + seq![':', c] + word;
    lemma_param(name, seq![':', c] + word);
    assert(t =~= name + (seq![':', c] + word));
    assert(t[n] == ':' && t[n + 1] == c);
    lemma_param(name, seq![':']);
    let u = seq![c] + word;
    assert(u[0] == c);
    assert(param_end(u, 0) == 0);
}

// ---------------------------------------------------------------------------
// Single texts.

proof fn lemma_segments_join(a: Seq<PartView>, b: Seq<PartView>, vars: Vars, last_status: i32)
    ensures
        segments(a + b, vars, last_status) == segments(a, vars, last_status) + segments(
            b,
            vars,
            last_status,
        ),
    decreases b.len(),
{
    if b.len() == 0 {
        assert(a + b =~= a);
        assert(segments(a, vars, last_status) + segments(b, vars, last_status) =~= segments(
            a,
            vars,
            last_status,
        ));
    } else {
        assert((a + b).drop_last() =~= a + b.drop_last());
        lemma_segments_join(a, b.drop_last(), vars, last_status);
        assert(segments(a + b, vars, last_status) =~= segments(a, vars, last_status) + segments(
            b,
            vars,
            last_status,
        ));
    }
}

proof fn lemma_texts_join(a: Seq<crate::expand::SegView>, b: Seq<crate::expand::SegView>)
    ensures
        segments_text(a + b) == segments_text(a) + segments_text(b),
    decreases b.len(),
{
    if b.len() == 0 {
        assert(a + b =~= a);
        assert(segments_text(a) + segments_text(b) =~= segments_text(a));
    } else {
        assert((a + b).drop_last() =~= a + b.drop_last());
        lemma_texts_join(a, b.drop_last());
        assert(segments_text(a + b) =~= segments_text(a) + segments_text(b));
    }
}

/// A word that is expanded to a single text, such as the target of a redirect,
/// is the texts of its parts in order.
pub proof fn law_single_texts_concatenate(
    a: Seq<PartView>,
    b: Seq<PartView>,
    vars: Vars,
    last_status: i32,
)
    ensures
        expanded_word(a + b, vars, last_status) == expanded_word(a, vars, last_status)
            + expanded_word(b, vars, last_status),
{
    lemma_segments_join(a, b, vars, last_status);
    lemma_texts_join(segments(a, vars, last_status), segments(b, vars, last_status));
}

/// The text of each kind of part: literals stand for themselves, quoted or not;
/// variables for their values, `~` for the home directory, `${...}` for what it
/// expands to, and output for itself. Quotes make no difference to the text.
pub proof fn law_single_texts(text: Seq<char>, vars: Vars, last_status: i32)
    ensures
        ({
            let one = |part: PartView| expanded_word(seq![part], vars, last_status);
            let none = Seq::<char>::empty();
            let home = seq!['H', 'O', 'M', 'E'];
            let status = seq!['?'];
            &&& one(PartView::Lit(text)) == text
            &&& one(PartView::QLit(text)) == text
            &&& one(PartView::SubstOut(text)) == text
            &&& text != status && vars.contains_key(text) ==> one(PartView::Var(text))
                == vars[text] && one(PartView::QVar(text)) == vars[text]
            &&& text != status && !vars.contains_key(text) ==> one(PartView::Var(text)) == none
                && one(PartView::QVar(text)) == none
            &&& one(PartView::Var(status)) == decimal(last_status as int)
            &&& one(PartView::QVar(status)) == decimal(last_status as int)
            &&& one(PartView::Param(text)) == param_text(text, vars, last_status)
            &&& one(PartView::QParam(text)) == param_text(text, vars, last_status)
            &&& one(PartView::Arith(text)) == crate::arith::arith_text(text, vars)
            &&& one(PartView::QArith(text)) == crate::arith::arith_text(text, vars)
            &&& vars.contains_key(home) ==> one(PartView::Tilde) == vars[home]
            &&& !vars.contains_key(home) ==> one(PartView::Tilde) == none
        }),
{
    let status = seq!['?'];
    lemma_one_text(PartView::Lit(text), vars, last_status);
    lemma_one_text(PartView::QLit(text), vars, last_status);
    lemma_one_text(PartView::SubstOut(text), vars, last_status);
    lemma_one_text(PartView::Var(text), vars, last_status);
    lemma_one_text(PartView::QVar(text), vars, last_status);
    lemma_one_text(PartView::Var(status), vars, last_status);
    lemma_one_text(PartView::QVar(status), vars, last_status);
    lemma_one_text(PartView::Param(text), vars, last_status);
    lemma_one_text(PartView::QParam(text), vars, last_status);
    lemma_one_text(PartView::Arith(text), vars, last_status);
    lemma_one_text(PartView::QArith(text), vars, last_status);
    lemma_one_text(PartView::Tilde, vars, last_status);
}

proof fn lemma_one_text(part: PartView, vars: Vars, last_status: i32)
    ensures
        expanded_word(seq![part], vars, last_status) == match crate::expand::part_segment(
            part,
            vars,
            last_status,
        ) {
            Some(seg) => seg.text(),
            None => Seq::empty(),
        },
{
    let parts = seq![part];
    assert(parts.drop_last() =~= Seq::<PartView>::empty());
    let before = segments(parts.drop_last(), vars, last_status);
    assert(before =~= Seq::<crate::expand::SegView>::empty());
    if let Some(seg) = crate::expand::part_segment(part, vars, last_status) {
        let all = segments(parts, vars, last_status);
        assert(all == before.push(seg));
        assert(all.drop_last() =~= before);
        assert(segments_text(before) =~= Seq::<char>::empty());
        assert(Seq::<char>::empty() + seg.text() =~= seg.text());
    }
}

// ---------------------------------------------------------------------------
// Words between double quotes.

/// What a word expands to whose start stands between double quotes.
pub open spec fn double_word(s: Seq<char>, vars: Vars, last_status: i32) -> Seq<char> {
    word_text(s, 0, Quote::Double, vars, last_status)
}

/// Double quotes in the word of an operator open and close; between them a
/// backslash escapes any character, and every other one but `$` stands for
/// itself. A backslash at the end of a word stands for nothing.
pub proof fn law_double_word_characters(c: char, rest: Seq<char>, vars: Vars, last_status: i32)
    ensures
        plain_word(seq!['"'] + rest, vars, last_status) == double_word(rest, vars, last_status),
        double_word(seq!['"'] + rest, vars, last_status) == plain_word(rest, vars, last_status),
        c != '\\' && c != '"' && c != '$' ==> double_word(seq![c] + rest, vars, last_status) == seq![
            c,
        ] + double_word(rest, vars, last_status),
        double_word(seq!['\\', c] + rest, vars, last_status) == seq![c] + double_word(
            rest,
            vars,
            last_status,
        ),
        double_word(Seq::empty(), vars, last_status) == Seq::<char>::empty(),
        double_word(seq!['\\'], vars, last_status) == Seq::<char>::empty(),
        plain_word(seq!['\\'], vars, last_status) == Seq::<char>::empty(),
{
    let q = seq!['"'] + rest;
    assert(q[0] == '"');
    lemma_move_word(q, 1, rest, 0, Quote::Double, vars, last_status);
    lemma_move_word(q, 1, rest, 0, Quote::Plain, vars, last_status);
    let a = seq![c] + rest;
    lemma_move_word(a, 1, rest, 0, Quote::Double, vars, last_status);
    assert(a[0] == c);
    let b = seq!['\\', c] + rest;
    lemma_move_word(b, 2, rest, 0, Quote::Double, vars, last_status);
    assert(b[0] == '\\' && b[1] == c);
}

/// Variables and `${...}` are expanded between double quotes as they are
/// outside.
pub proof fn law_double_word_expansions(
    name: Seq<char>,
    body: Seq<char>,
    rest: Seq<char>,
    vars: Vars,
    last_status: i32,
)
    requires
        all_name_chars(name),
        forall|i: int| 0 <= i <= body.len() ==> #[trigger] open_braces(body, i) >= 0,
        open_braces(body, body.len() as int) == 0,
    ensures
        rest.len() > 0 && !is_name_char(rest[0]) ==> double_word(
            seq!['$'] + name + rest,
            vars,
            last_status,
        ) == (if vars.contains_key(name) {
            vars[name]
        } else {
            Seq::empty()
        }) + double_word(rest, vars, last_status),
        double_word(seq!['$', '?'] + rest, vars, last_status) == decimal(last_status as int)
            + double_word(rest, vars, last_status),
        double_word(seq!['$', '{'] + body + seq!['}'] + rest, vars, last_status) == param_text(
            body,
            vars,
            last_status,
        ) + double_word(rest, vars, last_status),
        rest.len() > 0 && !is_name_char(rest[0]) && rest[0] != '{' && rest[0] != '?' ==> double_word(
            seq!['$'] + rest,
            vars,
            last_status,
        ) == seq!['$'] + double_word(rest, vars, last_status),
{
    if rest.len() > 0 && !is_name_char(rest[0]) {
        let s = seq!['$'] + name + rest;
        let k = 1 + name.len() as int;
        assert forall|j: int| 1 <= j < k implies is_name_char(#[trigger] s[j]) by {
            assert(s[j] == name[j - 1]);
        }
        assert(s[k] == rest[0]);
        lemma_names(s, 1, k);
        assert(s.subrange(1, k) =~= name);
        assert(s[1] == name[0]);
        assert(is_name_char(name[0]));
        lemma_move_word(s, k, rest, 0, Quote::Double, vars, last_status);
        let u = seq!['$'] + rest;
        lemma_move_word(u, 1, rest, 0, Quote::Double, vars, last_status);
        assert(u[1] == rest[0]);
        lemma_names(u, 1, 1);
    }
    let t = seq!['$', '?'] + rest;
    assert(t[0] == '$' && t[1] == '?');
    assert(t.subrange(1, 2) =~= seq!['?']);
    lemma_move_word(t, 2, rest, 0, Quote::Double, vars, last_status);
    let w = seq!['$', '{'] + body + seq!['}'] + rest;
    let end = 3 + body.len() as int;
    assert(w[0] == '$' && w[1] == '{');
    lemma_brace_end(w, 2, body, 0);
    assert(open_braces(body, 0) == 0);
    assert(brace_end(w, 2, 1) == Some(end));
    assert(w.subrange(2, end - 1) =~= body);
    lemma_move_word(w, end, rest, 0, Quote::Double, vars, last_status);
}

proof fn lemma_brace_stays_open(s: Seq<char>, i: int, depth: nat)
    requires
        0 <= i,
        depth > 0,
        forall|k: int| i <= k < s.len() ==> s[k] != '}',
    ensures
        brace_end(s, i, depth) is None,
    decreases s.len() - i,
{
    if i < s.len() {
        lemma_brace_stays_open(s, i + 1, depth);
        lemma_brace_stays_open(s, i + 1, depth + 1);
    }
}

/// A `${` that is never closed stands for itself.
pub proof fn law_open_braces_in_a_word(rest: Seq<char>, vars: Vars, last_status: i32)
    requires
        !rest.contains('}'),
    ensures
        plain_word(seq!['$', '{'] + rest, vars, last_status) == seq!['$', '{'] + plain_word(
            rest,
            vars,
            last_status,
        ),
{
    let s = seq!['$', '{'] + rest;
    assert(s[0] == '$' && s[1] == '{');
    assert forall|k: int| 2 <= k < s.len() implies s[k] != '}' by {
        assert(s[k] == rest[k - 2]);
        assert(rest.contains(rest[k - 2]));
    }
    lemma_brace_stays_open(s, 2, 1);
    lemma_move_word(s, 2, rest, 0, Quote::Plain, vars, last_status);
    let after = plain_word(rest, vars, last_status);
    assert(word_text(s, 1, Quote::Plain, vars, last_status) == seq!['{'] + after);
    assert(seq!['$'] + (seq!['{'] + after) =~= seq!['$', '{'] + after);
}

} // verus!
