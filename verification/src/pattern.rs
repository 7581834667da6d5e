//! Glob patterns: what the `glob` crate decides, and the rules built on it.

use vstd::prelude::*;

use crate::text::{chars_of, string_of};

verus! {

/// Whether the `glob` crate accepts `pattern`.
pub uninterp spec fn glob_pattern_valid(pattern: Seq<char>) -> bool;

/// Whether a valid `pattern` matches the whole of `text`, under the three
/// match options of the `glob` crate.
pub uninterp spec fn glob_pattern_matches(
    pattern: Seq<char>,
    text: Seq<char>,
    case_sensitive: bool,
    literal_separator: bool,
    literal_leading_dot: bool,
) -> bool;

/// `glob::Pattern::new`: whether it accepts the pattern. The answer is a
/// function of the pattern alone; which patterns are accepted (classes that
/// close, `**` only as a whole path component) is left to the crate.
#[verifier::external_body]
pub(crate) fn pattern_is_valid(pattern: &str) -> (r: bool)
    ensures
        r == glob_pattern_valid(pattern@),
{
    glob::Pattern::new(pattern).is_ok()
}

/// `glob::Pattern::matches_with` on an accepted pattern: whether it matches
/// the text. The answer is a function of the pattern, the text and the
/// options.
#[verifier::external_body]
pub(crate) fn pattern_matches(
    pattern: &str,
    text: &str,
    case_sensitive: bool,
    literal_separator: bool,
    literal_leading_dot: bool,
) -> (r: bool)
    requires
        glob_pattern_valid(pattern@),
    ensures
        r == glob_pattern_matches(
            pattern@,
            text@,
            case_sensitive,
            literal_separator,
            literal_leading_dot,
        ),
{
    let options = glob::MatchOptions {
        case_sensitive,
        require_literal_separator: literal_separator,
        require_literal_leading_dot: literal_leading_dot,
    };
    glob::Pattern::new(pattern).unwrap().matches_with(text, options)
}

/// What a character becomes when a pattern has to match it literally: the
/// four characters with a meaning in patterns go into a class of their own.
pub open spec fn escaped_char(c: char) -> Seq<char> {
    if c == '?' || c == '*' || c == '[' || c == ']' {
        seq!['[', c, ']']
    } else {
        seq![c]
    }
}

/// The pattern that matches `s` literally.
pub open spec fn escaped(s: Seq<char>) -> Seq<char>
    decreases s.len(),
{
    if s.len() == 0 {
        Seq::empty()
    } else {
        escaped(s.drop_last()) + escaped_char(s.last())
    }
}

/// `glob::Pattern::escape`: puts each of `?`, `*`, `[` and `]` into a class
/// of its own and copies the other characters.
#[verifier::external_body]
pub(crate) fn escape_pattern(text: &str) -> (r: String)
    ensures
        r@ == escaped(text@),
{
    glob::Pattern::escape(text)
}

/// How the paths that match a pattern are looked for; the match options of the
/// `glob` crate.
#[derive(Debug, Clone, Copy, PartialEq, Eq, Structural)]
pub struct GlobOptions {
    /// Upper and lower case differ.
    pub case_sensitive: bool,
    /// `*`, `?` and `[..]` stay within one path component; only `**` crosses
    /// `/`.
    pub literal_separator: bool,
    /// Nothing but a `.` matches the leading dot of a name.
    pub literal_leading_dot: bool,
}

/// How the shell looks for paths: unix shell behavior.
pub open spec fn shell_options() -> GlobOptions {
    GlobOptions { case_sensitive: true, literal_separator: true, literal_leading_dot: true }
}

/// How the shell looks for paths: unix shell behavior.
pub fn glob_options() -> (r: GlobOptions)
    ensures
        r == shell_options(),
{
    GlobOptions { case_sensitive: true, literal_separator: true, literal_leading_dot: true }
}

// ---------------------------------------------------------------------------
// Stripping a prefix or a suffix.

/// The part of `value` that is tested when it is cut at `k`: the head when a
/// prefix goes, else the tail.
pub open spec fn tested_part(value: Seq<char>, k: int, prefix: bool) -> Seq<char> {
    if prefix {
        value.take(k)
    } else {
        value.skip(k)
    }
}

/// The part of `value` that stays when it is cut at `k`.
pub open spec fn kept_part(value: Seq<char>, k: int, prefix: bool) -> Seq<char> {
    if prefix {
        value.skip(k)
    } else {
        value.take(k)
    }
}

/// The smallest cut at or after `k` with a match.
pub open spec fn first_hit(hits: Seq<bool>, k: int) -> Option<int>
    decreases hits.len() - k,
{
    if !(0 <= k < hits.len()) {
        None
    } else if hits[k] {
        Some(k)
    } else {
        first_hit(hits, k + 1)
    }
}

/// The largest cut before `k` with a match.
pub open spec fn last_hit(hits: Seq<bool>, k: int) -> Option<int>
    decreases k,
{
    if !(0 < k <= hits.len()) {
        None
    } else if hits[k - 1] {
        Some(k - 1)
    } else {
        last_hit(hits, k - 1)
    }
}

/// The cut to make, given for each cut whether the tested part matches: the
/// shortest tested part that matches, or the longest.
pub open spec fn chosen_cut(hits: Seq<bool>, prefix: bool, longest: bool) -> Option<int> {
    if prefix != longest {
        first_hit(hits, 0)
    } else {
        last_hit(hits, hits.len() as int)
    }
}

/// `value` without the part that was chosen; all of it when nothing matched.
pub open spec fn cut_text(value: Seq<char>, hits: Seq<bool>, prefix: bool, longest: bool) -> Seq<
    char,
> {
    match chosen_cut(hits, prefix, longest) {
        Some(k) => kept_part(value, k, prefix),
        None => value,
    }
}

/// For each cut of `value`, whether `pattern` matches the tested part. The
/// pattern matches a string, not a path: `/` and dots are ordinary.
pub open spec fn pattern_hits(value: Seq<char>, pattern: Seq<char>, prefix: bool) -> Seq<bool> {
    Seq::new(
        value.len() + 1,
        |k: int| glob_pattern_matches(pattern, tested_part(value, k, prefix), true, false, false),
    )
}

/// `value` without the shortest (or longest) prefix (or suffix) that matches
/// `pattern`.
pub open spec fn stripped(value: Seq<char>, pattern: Seq<char>, prefix: bool, longest: bool) -> Seq<
    char,
> {
    if glob_pattern_valid(pattern) {
        cut_text(value, pattern_hits(value, pattern, prefix), prefix, longest)
    } else {
        value
    }
}

/// Cut `value` where `hits`, which tells for each cut whether the tested part
/// matches, says.
pub fn cut_where(value: &str, hits: &[bool], prefix: bool, longest: bool) -> (r: String)
    requires
        hits@.len() == value@.len() + 1,
    ensures
        r@ == cut_text(value@, hits@, prefix, longest),
{
    let chars = chars_of(value);
    let n: usize = chars.len();
    let mut cut: Option<usize> = None;
    if prefix != longest {
        let mut k: usize = 0;
        while k < hits.len() && !hits[k]
            invariant
                k <= hits@.len(),
                first_hit(hits@, 0) == first_hit(hits@, k as int),
            decreases hits.len() - k,
        {
            k += 1;
        }
        if k < hits.len() {
            cut = Some(k);
        }
    } else {
        let mut k: usize = hits.len();
        while k > 0 && !hits[k - 1]
            invariant
                k <= hits@.len(),
                last_hit(hits@, hits@.len() as int) == last_hit(hits@, k as int),
            decreases k,
        {
            k -= 1;
        }
        if k > 0 {
            cut = Some(k - 1);
        }
    }
    match cut {
        Some(k) => {
            proof {
                assert(chars@.skip(k as int) =~= chars@.subrange(k as int, n as int));
                assert(chars@.take(k as int) =~= chars@.subrange(0, k as int));
            }
            if prefix {
                string_of(chars.as_slice(), k, n)
            } else {
                string_of(chars.as_slice(), 0, k)
            }
        },
        None => {
            proof {
                assert(chars@ =~= chars@.subrange(0, n as int));
            }
            string_of(chars.as_slice(), 0, n)
        },
    }
}

/// `${VAR#word}`/`${VAR%word}`: strip the shortest (or longest, with `##` /
/// `%%`) prefix/suffix matching the glob pattern `word`; no match leaves the
/// value unchanged.
pub fn trim_pattern(value: &str, pattern: &str, prefix: bool, longest: bool) -> (r: String)
    ensures
        r@ == stripped(value@, pattern@, prefix, longest),
{
    let chars = chars_of(value);
    let n: usize = chars.len();
    if !pattern_is_valid(pattern) {
        proof {
            assert(chars@ =~= chars@.subrange(0, n as int));
        }
        return string_of(chars.as_slice(), 0, n);
    }
    let ghost all = pattern_hits(value@, pattern@, prefix);
    let mut hits: Vec<bool> = Vec::new();
    let mut k: usize = 0;
    let mut done: bool = false;
    while !done
        invariant
            chars@ == value@,
            n == chars@.len(),
            all == pattern_hits(value@, pattern@, prefix),
            glob_pattern_valid(pattern@),
            k <= n,
            !done ==> hits@ == all.take(k as int),
            done ==> hits@ == all,
        decreases n - k, (if done { 0int } else { 1int }),
    {
        let part = if prefix {
            proof {
                assert(chars@.take(k as int) =~= chars@.subrange(0, k as int));
            }
            string_of(chars.as_slice(), 0, k)
        } else {
            proof {
                assert(chars@.skip(k as int) =~= chars@.subrange(k as int, n as int));
            }
            string_of(chars.as_slice(), k, n)
        };
        hits.push(pattern_matches(pattern, part.as_str(), true, false, false));
        proof {
            assert(all.take(k + 1) =~= all.take(k as int).push(all[k as int]));
            assert(all.take(n + 1) =~= all);
        }
        if k == n {
            done = true;
        } else {
            k += 1;
        }
    }
    cut_where(value, hits.as_slice(), prefix, longest)
}

// ---------------------------------------------------------------------------
// Laws.

/// Stripping leaves one end of the value: with a prefix gone it is a tail,
/// with a suffix gone a head.
pub proof fn law_stripped_keeps_an_end(
    value: Seq<char>,
    pattern: Seq<char>,
    prefix: bool,
    longest: bool,
)
    ensures
        exists|k: int|
            0 <= k <= value.len() && #[trigger] kept_part(value, k, prefix) == stripped(
                value,
                pattern,
                prefix,
                longest,
            ),
{
    let hits = pattern_hits(value, pattern, prefix);
    lemma_first_hit(hits, 0);
    lemma_last_hit(hits, hits.len() as int);
    assert(value.skip(0) =~= value);
    assert(value.take(value.len() as int) =~= value);
    let whole: int = if prefix {
        0
    } else {
        value.len() as int
    };
    assert(kept_part(value, whole, prefix) == value);
}

/// What goes matches the pattern, and no shorter (with `longest`, no longer)
/// part does.
pub proof fn law_cut_is_extreme(hits: Seq<bool>, prefix: bool, longest: bool, k: int)
    requires
        chosen_cut(hits, prefix, longest) == Some(k),
    ensures
        0 <= k < hits.len() && hits[k],
        forall|j: int|
            0 <= j < hits.len() && #[trigger] hits[j] ==> if prefix != longest {
                k <= j
            } else {
                j <= k
            },
{
    lemma_first_hit(hits, 0);
    lemma_last_hit(hits, hits.len() as int);
}

proof fn lemma_first_hit(hits: Seq<bool>, k: int)
    requires
        0 <= k <= hits.len(),
    ensures
        match first_hit(hits, k) {
            Some(h) => k <= h < hits.len() && hits[h] && forall|j: int| k <= j < h ==> !hits[j],
            None => forall|j: int| k <= j < hits.len() ==> !hits[j],
        },
    decreases hits.len() - k,
{
    if k < hits.len() && !hits[k] {
        lemma_first_hit(hits, k + 1);
    }
}

proof fn lemma_last_hit(hits: Seq<bool>, k: int)
    requires
        0 <= k <= hits.len(),
    ensures
        match last_hit(hits, k) {
            Some(h) => 0 <= h < k && hits[h] && forall|j: int| h < j < k ==> !hits[j],
            None => forall|j: int| 0 <= j < k ==> !hits[j],
        },
    decreases k,
{
    if k > 0 && !hits[k - 1] {
        lemma_last_hit(hits, k - 1);
    }
}

/// The pattern is valid and matches the text, as a string and not as a path.
pub open spec fn matches_text(pattern: Seq<char>, text: Seq<char>) -> bool {
    glob_pattern_valid(pattern) && glob_pattern_matches(pattern, text, true, false, false)
}

/// A prefix goes: the shortest one that matches, or with `longest` the longest;
/// the value stays as it is where none matches.
pub proof fn law_prefixes_are_stripped(value: Seq<char>, pattern: Seq<char>, k: int)
    ensures
        0 <= k <= value.len() && matches_text(pattern, value.take(k)) && (forall|j: int|
            0 <= j < k ==> !matches_text(pattern, #[trigger] value.take(j))) ==> stripped(
            value,
            pattern,
            true,
            false,
        ) == value.skip(k),
        0 <= k <= value.len() && matches_text(pattern, value.take(k)) && (forall|j: int|
            k < j <= value.len() ==> !matches_text(pattern, #[trigger] value.take(j))) ==> stripped(
            value,
            pattern,
            true,
            true,
        ) == value.skip(k),
        (forall|j: int|
            0 <= j <= value.len() ==> !matches_text(pattern, #[trigger] value.take(j))) ==> stripped(
            value,
            pattern,
            true,
            false,
        ) == value && stripped(value, pattern, true, true) == value,
{
    let hits = pattern_hits(value, pattern, true);
    lemma_first_hit(hits, 0);
    lemma_last_hit(hits, hits.len() as int);
    if glob_pattern_valid(pattern) {
        assert forall|j: int| 0 <= j <= value.len() implies hits[j] == matches_text(
            pattern,
            #[trigger] value.take(j),
        ) by {}
        if let Some(h) = first_hit(hits, 0) {
            assert(hits[h] == matches_text(pattern, value.take(h)));
        }
        if let Some(h) = last_hit(hits, hits.len() as int) {
            assert(hits[h] == matches_text(pattern, value.take(h)));
        }
        if 0 <= k <= value.len() {
            assert(hits[k] == matches_text(pattern, value.take(k)));
        }
    }
}

/// A suffix goes: the shortest one that matches, or with `longest` the longest;
/// the value stays as it is where none matches.
pub proof fn law_suffixes_are_stripped(value: Seq<char>, pattern: Seq<char>, k: int)
    ensures
        0 <= k <= value.len() && matches_text(pattern, value.skip(k)) && (forall|j: int|
            k < j <= value.len() ==> !matches_text(pattern, #[trigger] value.skip(j))) ==> stripped(
            value,
            pattern,
            false,
            false,
        ) == value.take(k),
        0 <= k <= value.len() && matches_text(pattern, value.skip(k)) && (forall|j: int|
            0 <= j < k ==> !matches_text(pattern, #[trigger] value.skip(j))) ==> stripped(
            value,
            pattern,
            false,
            true,
        ) == value.take(k),
        (forall|j: int|
            0 <= j <= value.len() ==> !matches_text(pattern, #[trigger] value.skip(j))) ==> stripped(
            value,
            pattern,
            false,
            false,
        ) == value && stripped(value, pattern, false, true) == value,
{
    let hits = pattern_hits(value, pattern, false);
    lemma_first_hit(hits, 0);
    lemma_last_hit(hits, hits.len() as int);
    if glob_pattern_valid(pattern) {
        assert forall|j: int| 0 <= j <= value.len() implies hits[j] == matches_text(
            pattern,
            #[trigger] value.skip(j),
        ) by {}
        if let Some(h) = first_hit(hits, 0) {
            assert(hits[h] == matches_text(pattern, value.skip(h)));
        }
        if let Some(h) = last_hit(hits, hits.len() as int) {
            assert(hits[h] == matches_text(pattern, value.skip(h)));
        }
        if 0 <= k <= value.len() {
            assert(hits[k] == matches_text(pattern, value.skip(k)));
        }
    }
}

/// The shell's patterns tell upper case from lower case, stay within a name of
/// the path, and pass over names with a dot in front.
pub proof fn law_shell_options()
    ensures
        shell_options().case_sensitive,
        shell_options().literal_separator,
        shell_options().literal_leading_dot,
{
}

/// The pattern for a literal text: each of `?`, `*`, `[` and `]` between
/// brackets, and the other characters as they are.
pub proof fn law_literal_patterns(text: Seq<char>, c: char)
    ensures
        escaped(Seq::empty()) == Seq::<char>::empty(),
        escaped(text.push(c)) == escaped(text) + (if c == '?' || c == '*' || c == '[' || c == ']' {
            seq!['[', c, ']']
        } else {
            seq![c]
        }),
{
    assert(text.push(c).drop_last() =~= text);
}

} // verus!
