//! Brace expansion: `{a,b}` comma lists and `{1..10[..step]}` integer ranges.

use vstd::prelude::*;

use crate::arith::magnitude;
use crate::lexer::{clone_parts, part_views, Part, PartView};
use crate::number::{decimal, parse_i64, parsed_int, signed_text};
use crate::parser::word_views;
use crate::text::{chars_of, string_from, string_of, texts};

verus! {

// ---------------------------------------------------------------------------
// Ranges.

/// The pieces of `s[start..]` between occurrences of `..`, where no `..`
/// begins in `s[start..i]`.
pub open spec fn dot_pieces(s: Seq<char>, start: int, i: int) -> Seq<Seq<char>>
    decreases s.len() - i,
{
    if !(0 <= start <= i && i + 1 < s.len()) {
        seq![s.subrange(start, s.len() as int)]
    } else if s[i] == '.' && s[i + 1] == '.' {
        seq![s.subrange(start, i)] + dot_pieces(s, i + 2, i + 2)
    } else {
        dot_pieces(s, start, i + 1)
    }
}

/// The 64-bit integer that a text denotes.
pub open spec fn integer(s: Seq<char>) -> Option<int> {
    parsed_int(s, i64::MIN as int, i64::MAX as int)
}

/// How many numbers there are from `first` to `last` in steps of `step`.
pub open spec fn range_count(first: int, last: int, step: int) -> nat {
    (magnitude(last - first) / step + 1) as nat
}

/// The number at place `k` of the range from `first` toward `last`.
pub open spec fn range_item(first: int, last: int, step: int, k: int) -> int {
    if first <= last {
        first + k * step
    } else {
        first - k * step
    }
}

/// The numbers from `first` to `last` in steps of `step`.
pub open spec fn range_texts(first: int, last: int, step: int) -> Seq<Seq<char>> {
    Seq::new(
        range_count(first, last, step),
        |k: int| decimal(range_item(first, last, step, k)),
    )
}

/// What the body of a range stands for: two integers and an optional step,
/// whose sign does not matter.
pub open spec fn range_of(body: Seq<char>) -> Option<Seq<Seq<char>>> {
    let pieces = dot_pieces(body, 0, 0);
    if pieces.len() == 2 || pieces.len() == 3 {
        let step = if pieces.len() == 3 {
            integer(pieces[2])
        } else {
            Some(1int)
        };
        match (integer(pieces[0]), integer(pieces[1]), step) {
            (Some(first), Some(last), Some(step)) => if step == 0 {
                None
            } else {
                Some(range_texts(first, last, magnitude(step)))
            },
            _ => None,
        }
    } else {
        None
    }
}

// ---------------------------------------------------------------------------
// Groups.

/// The position of the `}` that closes the group whose body `i` is in,
/// `depth` groups deep.
pub open spec fn group_close(s: Seq<char>, i: int, depth: nat) -> Option<int>
    decreases s.len() - i,
{
    if !(0 <= i < s.len()) {
        None
    } else if s[i] == '{' {
        group_close(s, i + 1, depth + 1)
    } else if s[i] == '}' {
        if depth == 0 {
            Some(i)
        } else {
            group_close(s, i + 1, (depth - 1) as nat)
        }
    } else {
        group_close(s, i + 1, depth)
    }
}

/// The parts of `body[start..]` between commas outside nested groups, where
/// none of these commas stands in `body[start..i]` and `i` is `depth` groups
/// deep.
pub open spec fn comma_parts(body: Seq<char>, start: int, i: int, depth: nat) -> Seq<Seq<char>>
    decreases body.len() - i,
{
    if !(0 <= start <= i < body.len()) {
        seq![body.subrange(start, body.len() as int)]
    } else if body[i] == ',' && depth == 0 {
        seq![body.subrange(start, i)] + comma_parts(body, i + 1, i + 1, 0)
    } else if body[i] == '{' {
        comma_parts(body, start, i + 1, depth + 1)
    } else if body[i] == '}' && depth > 0 {
        comma_parts(body, start, i + 1, (depth - 1) as nat)
    } else {
        comma_parts(body, start, i + 1, depth)
    }
}

/// Each of `rests` with `head` before it.
pub open spec fn with_head(head: Seq<char>, rests: Seq<Seq<char>>) -> Seq<Seq<char>> {
    Seq::new(rests.len(), |k: int| head + rests[k])
}

/// Every alternative followed by every rest, `prefix` before each.
pub open spec fn spread(prefix: Seq<char>, alts: Seq<Seq<char>>, rests: Seq<Seq<char>>) -> Seq<
    Seq<char>,
>
    decreases alts.len(),
{
    if alts.len() == 0 {
        Seq::empty()
    } else {
        spread(prefix, alts.drop_last(), rests) + with_head(prefix + alts.last(), rests)
    }
}

/// The texts that a literal text expands to.
pub open spec fn braces(s: Seq<char>) -> Seq<Seq<char>>
    decreases s.len(), s.len() + 2,
{
    braces_from(s, 0)
}

/// The texts that `s` expands to when no valid group starts before `i`: the
/// leftmost valid group is expanded, and then what follows it.
pub open spec fn braces_from(s: Seq<char>, i: int) -> Seq<Seq<char>>
    decreases s.len(), s.len() - i + 1,
{
    if !(0 <= i < s.len()) {
        seq![s]
    } else {
        match group_at(s, i) {
            Some((alts, end)) => if i < end <= s.len() {
                spread(s.take(i), alts, braces(s.skip(end)))
            } else {
                seq![s]
            },
            None => braces_from(s, i + 1),
        }
    }
}

/// The alternatives of the group that starts at `i` and the position after
/// it, if a valid group starts there.
pub open spec fn group_at(s: Seq<char>, i: int) -> Option<(Seq<Seq<char>>, int)>
    decreases s.len(), 0nat,
{
    if !(0 <= i < s.len() && s[i] == '{') {
        None
    } else {
        match group_close(s, i + 1, 0) {
            Some(k) => if i < k < s.len() {
                let body = s.subrange(i + 1, k);
                let parts = comma_parts(body, 0, 0, 0);
                if parts.len() > 1 {
                    Some((all_braces(parts, (s.len() - 1) as nat), k + 1))
                } else {
                    match range_of(body) {
                        Some(alts) => Some((alts, k + 1)),
                        None => None,
                    }
                }
            } else {
                None
            },
            None => None,
        }
    }
}

/// The texts that each of `parts`, all shorter than `bound`, expands to, one
/// after the other.
pub open spec fn all_braces(parts: Seq<Seq<char>>, bound: nat) -> Seq<Seq<char>>
    decreases bound, parts.len(),
{
    if parts.len() == 0 {
        Seq::empty()
    } else if parts.last().len() < bound {
        all_braces(parts.drop_last(), bound) + braces(parts.last())
    } else {
        all_braces(parts.drop_last(), bound)
    }
}

// ---------------------------------------------------------------------------
// Words.

/// What a part can become: a literal each of its texts, another part itself.
pub open spec fn part_choices(part: PartView) -> Seq<PartView> {
    match part {
        PartView::Lit(text) => Seq::new(
            braces(text).len(),
            |k: int| PartView::Lit(braces(text)[k]),
        ),
        other => seq![other],
    }
}

/// `word` with each of `choices` after it.
pub open spec fn with_choices(word: Seq<PartView>, choices: Seq<PartView>) -> Seq<Seq<PartView>> {
    Seq::new(choices.len(), |k: int| word.push(choices[k]))
}

/// Every word with every choice after it.
pub open spec fn crossed(words: Seq<Seq<PartView>>, choices: Seq<PartView>) -> Seq<Seq<PartView>>
    decreases words.len(),
{
    if words.len() == 0 {
        Seq::empty()
    } else {
        crossed(words.drop_last(), choices) + with_choices(words.last(), choices)
    }
}

/// The words that a word expands to: one for each way to choose among the
/// texts of its literals.
pub open spec fn variants(parts: Seq<PartView>) -> Seq<Seq<PartView>>
    decreases parts.len(),
{
    if parts.len() == 0 {
        seq![Seq::empty()]
    } else {
        crossed(variants(parts.drop_last()), part_choices(parts.last()))
    }
}

// ---------------------------------------------------------------------------
// Implementation.

proof fn lemma_range_count(first: int, last: int, step: int, k: int)
    requires
        step > 0,
        k >= 1,
        magnitude(last - first) < k * step,
        (k - 1) * step <= magnitude(last - first),
    ensures
        range_count(first, last, step) == k,
{
    let d = magnitude(last - first);
    assert(d / step == k - 1) by (nonlinear_arith)
        requires
            step > 0,
            (k - 1) * step <= d,
            d < k * step,
    ;
}

/// `body` cut at `..`.
fn split_dots(body: &[char]) -> (r: Vec<String>)
    ensures
        texts(r@) == dot_pieces(body@, 0, 0),
{
    let ghost s = body@;
    let mut out: Vec<String> = Vec::new();
    let mut start: usize = 0;
    let mut i: usize = 0;
    proof {
        assert(texts(out@) + dot_pieces(s, 0, 0) =~= dot_pieces(s, 0, 0));
    }
    while i < body.len() && body.len() - i > 1
        invariant
            s == body@,
            start <= i <= body@.len(),
            dot_pieces(s, 0, 0) == texts(out@) + dot_pieces(s, start as int, i as int),
        decreases body.len() - i,
    {
        if body[i] == '.' && body[i + 1] == '.' {
            let ghost before = texts(out@);
            let piece = string_of(body, start, i);
            out.push(piece);
            proof {
                assert(texts(out@) =~= before.push(piece@));
                assert(before + (seq![piece@] + dot_pieces(s, i + 2, i + 2)) =~= texts(out@)
                    + dot_pieces(s, i + 2, i + 2));
            }
            i += 2;
            start = i;
        } else {
            i += 1;
        }
    }
    let ghost before = texts(out@);
    let piece = string_of(body, start, body.len());
    out.push(piece);
    proof {
        assert(texts(out@) =~= before.push(piece@));
        assert(before + seq![piece@] =~= before.push(piece@));
    }
    out
}

/// The numbers from `first` to `last` in steps of `step`.
fn count_range(first: i64, last: i64, step: u64) -> (r: Vec<String>)
    requires
        step > 0,
    ensures
        texts(r@) == range_texts(first as int, last as int, step as int),
{
    let ghost a = first as int;
    let ghost b = last as int;
    let ghost d = step as int;
    let up = first <= last;
    let mut out: Vec<String> = Vec::new();
    let mut n: i64 = first;
    let mut left: u64 = distance(first, last);
    let ghost mut k: int = 0;
    out.push(signed_text(n));
    proof {
        assert(0 * d == 0);
    }
    while left >= step
        invariant
            a == first,
            b == last,
            d == step,
            d > 0,
            up == (first <= last),
            k >= 0,
            out@.len() == k + 1,
            n == range_item(a, b, d, k),
            left == magnitude(b - n),
            left == magnitude(b - a) - k * d,
            up ==> n <= last,
            !up ==> n >= last,
            forall|j: int| 0 <= j <= k ==> (#[trigger] texts(out@)[j]) == decimal(range_item(a, b, d, j)),
        decreases left,
    {
        let ghost before = texts(out@);
        n = if up {
            (n as i128 + step as i128) as i64
        } else {
            (n as i128 - step as i128) as i64
        };
        left = left - step;
        let text = signed_text(n);
        out.push(text);
        proof {
            assert(texts(out@) =~= before.push(text@));
            assert((k + 1) * d == k * d + d) by (nonlinear_arith);
            k = k + 1;
            assert(forall|j: int| 0 <= j < k ==> texts(out@)[j] == before[j]);
        }
    }
    proof {
        assert((k + 1) * d == k * d + d) by (nonlinear_arith);
        lemma_range_count(a, b, d, k + 1);
        assert(texts(out@) =~= range_texts(a, b, d));
    }
    out
}

/// How far `last` is from `first`.
fn distance(first: i64, last: i64) -> (r: u64)
    ensures
        r == magnitude(last - first),
{
    if first <= last {
        (last as i128 - first as i128) as u64
    } else {
        (first as i128 - last as i128) as u64
    }
}

/// `{a..b[..step]}` integer range, ascending or descending; the step is a
/// magnitude. `None` when the body is not a valid range (the group then
/// stays literal).
pub fn range_expansion(body: &str) -> (r: Option<Vec<String>>)
    ensures
        match r {
            Some(v) => range_of(body@) == Some(texts(v@)),
            None => range_of(body@) is None,
        },
{
    let chars = chars_of(body);
    let pieces = split_dots(chars.as_slice());
    let ghost all = texts(pieces@);
    if pieces.len() != 2 && pieces.len() != 3 {
        return None;
    }
    proof {
        assert(all[0] == pieces@[0]@);
        assert(all[1] == pieces@[1]@);
    }
    let first: i64 = match parse_i64(pieces[0].as_str()) {
        None => {
            return None;
        },
        Some(n) => n,
    };
    let last: i64 = match parse_i64(pieces[1].as_str()) {
        None => {
            return None;
        },
        Some(n) => n,
    };
    let step: i64 = if pieces.len() == 3 {
        proof {
            assert(all[2] == pieces@[2]@);
        }
        match parse_i64(pieces[2].as_str()) {
            None => {
                return None;
            },
            Some(n) => n,
        }
    } else {
        1
    };
    if step == 0 {
        return None;
    }
    let size: u64 = if step < 0 {
        (-(step as i128)) as u64
    } else {
        step as u64
    };
    Some(count_range(first, last, size))
}

/// The position of the `}` that closes the group whose body starts at
/// `start`.
fn find_close(chars: &[char], start: usize) -> (r: Option<usize>)
    requires
        1 <= start <= chars@.len(),
    ensures
        match r {
            Some(k) => group_close(chars@, start as int, 0) == Some(k as int) && start <= k
                < chars@.len(),
            None => group_close(chars@, start as int, 0) is None,
        },
{
    let mut depth: usize = 0;
    let mut i: usize = start;
    while i < chars.len()
        invariant
            1 <= start <= i <= chars@.len(),
            depth <= i - start,
            group_close(chars@, start as int, 0) == group_close(chars@, i as int, depth as nat),
        decreases chars.len() - i,
    {
        let c = chars[i];
        if c == '{' {
            depth += 1;
        } else if c == '}' {
            if depth == 0 {
                return Some(i);
            }
            depth -= 1;
        }
        i += 1;
    }
    None
}

/// `body` cut at the commas outside nested groups.
fn split_commas(body: &[char]) -> (r: Vec<String>)
    requires
        body@.len() < usize::MAX,
    ensures
        texts(r@) == comma_parts(body@, 0, 0, 0),
{
    let ghost s = body@;
    let mut out: Vec<String> = Vec::new();
    let mut start: usize = 0;
    let mut depth: usize = 0;
    let mut i: usize = 0;
    proof {
        assert(texts(out@) + comma_parts(s, 0, 0, 0) =~= comma_parts(s, 0, 0, 0));
    }
    while i < body.len()
        invariant
            s == body@,
            start <= i <= body@.len(),
            depth <= i,
            comma_parts(s, 0, 0, 0) == texts(out@) + comma_parts(
                s,
                start as int,
                i as int,
                depth as nat,
            ),
        decreases body.len() - i,
    {
        let c = body[i];
        if c == ',' && depth == 0 {
            let ghost before = texts(out@);
            let piece = string_of(body, start, i);
            out.push(piece);
            proof {
                assert(texts(out@) =~= before.push(piece@));
                assert(before + (seq![piece@] + comma_parts(s, i + 1, i + 1, 0)) =~= texts(out@)
                    + comma_parts(s, i + 1, i + 1, 0));
            }
            start = i + 1;
        } else if c == '{' {
            depth += 1;
        } else if c == '}' && depth > 0 {
            depth -= 1;
        }
        i += 1;
    }
    let ghost before = texts(out@);
    let piece = string_of(body, start, body.len());
    out.push(piece);
    proof {
        assert(texts(out@) =~= before.push(piece@));
        assert(before + seq![piece@] =~= before.push(piece@));
    }
    out
}

/// Add every alternative followed by every rest, `prefix` before each.
fn spread_texts(prefix: &str, alts: &[String], rests: &[String]) -> (r: Vec<String>)
    ensures
        texts(r@) == spread(prefix@, texts(alts@), texts(rests@)),
{
    let ghost all = texts(alts@);
    let ghost tails = texts(rests@);
    let mut out: Vec<String> = Vec::new();
    let mut a: usize = 0;
    proof {
        assert(texts(out@) =~= spread(prefix@, all.take(0), tails));
    }
    while a < alts.len()
        invariant
            all == texts(alts@),
            tails == texts(rests@),
            a <= alts@.len(),
            texts(out@) == spread(prefix@, all.take(a as int), tails),
        decreases alts.len() - a,
    {
        let ghost before = texts(out@);
        let head = String::from_str(prefix).concat(alts[a].as_str());
        let mut b: usize = 0;
        proof {
            assert(texts(out@) =~= before + with_head(head@, tails).take(0));
        }
        while b < rests.len()
            invariant
                tails == texts(rests@),
                b <= rests@.len(),
                texts(out@) == before + with_head(head@, tails).take(b as int),
            decreases rests.len() - b,
        {
            let ghost so_far = texts(out@);
            let text = head.clone().concat(rests[b].as_str());
            out.push(text);
            proof {
                assert(texts(out@) =~= so_far.push(text@));
                assert(texts(out@) =~= before + with_head(head@, tails).take(b + 1));
            }
            b += 1;
        }
        proof {
            assert(all.take(a + 1).drop_last() =~= all.take(a as int));
            assert(all.take(a + 1).last() == alts@[a as int]@);
            assert(with_head(head@, tails).take(rests@.len() as int) =~= with_head(head@, tails));
        }
        a += 1;
    }
    proof {
        assert(all.take(alts@.len() as int) =~= all);
    }
    out
}

proof fn lemma_comma_parts_short(body: Seq<char>, start: int, i: int, depth: nat)
    requires
        0 <= start <= i <= body.len(),
    ensures
        all_at_most(comma_parts(body, start, i, depth), body.len() - start),
    decreases body.len() - i,
{
    let all = comma_parts(body, start, i, depth);
    if i < body.len() {
        if body[i] == ',' && depth == 0 {
            lemma_comma_parts_short(body, i + 1, i + 1, 0);
            let rest = comma_parts(body, i + 1, i + 1, 0);
            assert forall|k: int| 0 <= k < all.len() implies (#[trigger] all[k]).len()
                <= body.len() - start by {
                if k > 0 {
                    assert(all[k] == rest[k - 1]);
                }
            }
        } else if body[i] == '{' {
            lemma_comma_parts_short(body, start, i + 1, depth + 1);
        } else if body[i] == '}' && depth > 0 {
            lemma_comma_parts_short(body, start, i + 1, (depth - 1) as nat);
        } else {
            lemma_comma_parts_short(body, start, i + 1, depth);
        }
    } else {
        assert(all == seq![body.subrange(start, body.len() as int)]);
    }
}

/// No text of `parts` is longer than `n`.
spec fn all_at_most(parts: Seq<Seq<char>>, n: int) -> bool {
    forall|k: int| 0 <= k < parts.len() ==> (#[trigger] parts[k]).len() <= n
}

/// Brace-expand one literal text: `{a,b}` comma lists and `{1..10[..step]}`
/// integer ranges (descending and negative ranges work), nesting included.
/// The leftmost valid group expands first; a group with no closing `}`, no
/// top-level comma and no valid range stays literal, and scanning continues
/// after it.
pub fn brace_expand(text: &str) -> (r: Vec<String>)
    ensures
        texts(r@) == braces(text@),
    decreases text@.len(), text@.len() + 2,
{
    let chars = chars_of(text);
    let ghost s = text@;
    let mut i: usize = 0;
    while i < chars.len()
        invariant
            s == chars@,
            s == text@,
            i <= chars@.len(),
            braces(s) == braces_from(s, i as int),
        decreases chars.len() - i,
    {
        match parse_brace_group(chars.as_slice(), i) {
            None => {
                i += 1;
            },
            Some((alts, end)) => {
                let prefix = string_of(chars.as_slice(), 0, i);
                let suffix = string_of(chars.as_slice(), end, chars.len());
                proof {
                    assert(s.subrange(0, i as int) =~= s.take(i as int));
                    assert(s.subrange(end as int, s.len() as int) =~= s.skip(end as int));
                }
                let rests = brace_expand(suffix.as_str());
                return spread_texts(prefix.as_str(), alts.as_slice(), rests.as_slice());
            },
        }
    }
    let whole = string_from(chars.as_slice());
    let mut out: Vec<String> = Vec::new();
    out.push(whole);
    proof {
        assert(texts(out@) =~= seq![s]);
    }
    out
}

/// Parse the `{...}` group at `chars[start]`, returning the fully expanded
/// alternatives and the index just past the closing `}`; `None` when there is
/// no group or it is invalid and must stay literal.
fn parse_brace_group(chars: &[char], start: usize) -> (r: Option<(Vec<String>, usize)>)
    requires
        start < chars@.len(),
    ensures
        match group_at(chars@, start as int) {
            Some((alts, end)) => r matches Some((v, e)) && texts(v@) == alts && e == end && start
                < e <= chars@.len(),
            None => r is None,
        },
    decreases chars@.len(), 0nat,
{
    let n: usize = chars.len();
    if chars[start] != '{' {
        return None;
    }
    let k: usize = match find_close(chars, start + 1) {
        None => {
            return None;
        },
        Some(k) => k,
    };
    let text = string_of(chars, start + 1, k);
    let body = chars_of(text.as_str());
    let parts = split_commas(body.as_slice());
    if parts.len() > 1 {
        // Comma list: every alternative brace-expands recursively.
        let ghost all = texts(parts@);
        let ghost bound = (n - 1) as nat;
        proof {
            lemma_comma_parts_short(body@, 0, 0, 0);
        }
        let mut alts: Vec<String> = Vec::new();
        let mut i: usize = 0;
        proof {
            assert(texts(alts@) =~= all_braces(all.take(0), bound));
        }
        while i < parts.len()
            invariant
                n == chars@.len(),
                n >= 2,
                bound == n - 1,
                all == texts(parts@),
                forall|j: int| 0 <= j < all.len() ==> (#[trigger] all[j]).len() <= n - 2,
                i <= parts@.len(),
                texts(alts@) == all_braces(all.take(i as int), bound),
            decreases parts.len() - i,
        {
            proof {
                assert(all[i as int] == parts@[i as int]@);
            }
            let mut more = brace_expand(parts[i].as_str());
            let ghost before = texts(alts@);
            let ghost added = texts(more@);
            let ghost old_alts = alts@;
            let ghost old_more = more@;
            alts.append(&mut more);
            proof {
                assert(alts@ == old_alts + old_more);
                assert(texts(alts@) =~= before + added);
                assert(all.take(i + 1).drop_last() =~= all.take(i as int));
            }
            i += 1;
        }
        proof {
            assert(all.take(parts@.len() as int) =~= all);
        }
        return Some((alts, k + 1));
    }
    // No top-level comma: only an integer range is a valid group.
    match range_expansion(text.as_str()) {
        None => None,
        Some(alts) => Some((alts, k + 1)),
    }
}

/// Multiply a word over the brace groups of its unquoted literal parts
/// (cartesian product when several parts/groups expand); every other part
/// is copied to every variant unchanged, so quoting and `$...` expansions
/// never participate.
pub fn brace_expand_parts(parts: &[Part]) -> (r: Vec<Vec<Part>>)
    ensures
        word_views(r@) == variants(part_views(parts@)),
{
    let ghost all = part_views(parts@);
    let mut words: Vec<Vec<Part>> = Vec::new();
    words.push(Vec::new());
    let mut i: usize = 0;
    proof {
        assert(part_views(words@[0]@) =~= Seq::<PartView>::empty());
        assert(word_views(words@) =~= variants(all.take(0)));
    }
    while i < parts.len()
        invariant
            all == part_views(parts@),
            i <= parts@.len(),
            word_views(words@) == variants(all.take(i as int)),
        decreases parts.len() - i,
    {
        let choices = choices_of(&parts[i]);
        words = cross(words.as_slice(), choices.as_slice());
        proof {
            assert(all.take(i + 1).drop_last() =~= all.take(i as int));
            assert(all.take(i + 1).last() == parts@[i as int]@);
        }
        i += 1;
    }
    proof {
        assert(all.take(parts@.len() as int) =~= all);
    }
    words
}

/// What a part can become.
fn choices_of(part: &Part) -> (r: Vec<Part>)
    ensures
        part_views(r@) == part_choices(part@),
{
    let mut out: Vec<Part> = Vec::new();
    match part {
        Part::Lit(text) => {
            let alts = brace_expand(text.as_str());
            let ghost all = braces(text@);
            let mut k: usize = 0;
            while k < alts.len()
                invariant
                    all == texts(alts@),
                    k <= alts@.len(),
                    out@.len() == k,
                    forall|j: int| 0 <= j < k ==> (#[trigger] out@[j])@ == PartView::Lit(all[j]),
                decreases alts.len() - k,
            {
                out.push(Part::Lit(alts[k].clone()));
                k += 1;
            }
            proof {
                assert(part_views(out@) =~= part_choices(part@));
            }
        },
        other => {
            out.push(other.clone());
            proof {
                assert(part_views(out@) =~= seq![part@]);
            }
        },
    }
    out
}

/// Every word with every choice after it.
fn cross(words: &[Vec<Part>], choices: &[Part]) -> (r: Vec<Vec<Part>>)
    ensures
        word_views(r@) == crossed(word_views(words@), part_views(choices@)),
{
    let ghost heads = word_views(words@);
    let ghost tails = part_views(choices@);
    let mut out: Vec<Vec<Part>> = Vec::new();
    let mut a: usize = 0;
    proof {
        assert(word_views(out@) =~= crossed(heads.take(0), tails));
    }
    while a < words.len()
        invariant
            heads == word_views(words@),
            tails == part_views(choices@),
            a <= words@.len(),
            word_views(out@) == crossed(heads.take(a as int), tails),
        decreases words.len() - a,
    {
        let ghost before = word_views(out@);
        let ghost head = part_views(words@[a as int]@);
        let ghost row = with_choices(head, tails);
        let mut b: usize = 0;
        proof {
            assert(word_views(out@) =~= before + row.take(0));
        }
        while b < choices.len()
            invariant
                tails == part_views(choices@),
                a < words@.len(),
                head == part_views(words@[a as int]@),
                row == with_choices(head, tails),
                b <= choices@.len(),
                word_views(out@) == before + row.take(b as int),
            decreases choices.len() - b,
        {
            let ghost so_far = word_views(out@);
            let mut word = clone_parts(words[a].as_slice());
            word.push(choices[b].clone());
            proof {
                assert(part_views(word@) =~= head.push(tails[b as int]));
            }
            out.push(word);
            proof {
                assert(word_views(out@) =~= so_far.push(part_views(word@)));
                assert(word_views(out@) =~= before + row.take(b + 1));
            }
            b += 1;
        }
        proof {
            assert(heads.take(a + 1).drop_last() =~= heads.take(a as int));
            assert(heads.take(a + 1).last() == head);
            assert(row.take(choices@.len() as int) =~= row);
        }
        a += 1;
    }
    proof {
        assert(heads.take(words@.len() as int) =~= heads);
    }
    out
}

// ---------------------------------------------------------------------------
// Laws.

/// A text without `{` expands to itself.
pub proof fn law_no_brace_no_change(s: Seq<char>)
    requires
        !s.contains('{'),
    ensures
        braces(s) == seq![s],
{
    lemma_no_brace(s, 0);
}

proof fn lemma_no_brace(s: Seq<char>, i: int)
    requires
        0 <= i <= s.len(),
        !s.contains('{'),
    ensures
        braces_from(s, i) == seq![s],
    decreases s.len() - i,
{
    if i < s.len() {
        assert(s.contains(s[i]));
        assert(group_at(s, i) is None);
        lemma_no_brace(s, i + 1);
    }
}

/// The product has an entry for each pair of an alternative and a rest.
pub proof fn law_spread_len(prefix: Seq<char>, alts: Seq<Seq<char>>, rests: Seq<Seq<char>>)
    ensures
        spread(prefix, alts, rests).len() == alts.len() * rests.len(),
    decreases alts.len(),
{
    if alts.len() == 0 {
        assert(0 * rests.len() == 0);
    } else {
        law_spread_len(prefix, alts.drop_last(), rests);
        assert((alts.len() - 1) * rests.len() + rests.len() == alts.len() * rests.len())
            by (nonlinear_arith);
    }
}

/// A text always expands to at least one text.
pub proof fn law_braces_never_empty(s: Seq<char>)
    ensures
        braces(s).len() >= 1,
    decreases s.len(), s.len() + 2,
{
    lemma_from_never_empty(s, 0);
}

proof fn lemma_from_never_empty(s: Seq<char>, i: int)
    requires
        0 <= i <= s.len(),
    ensures
        braces_from(s, i).len() >= 1,
    decreases s.len(), s.len() - i + 1,
{
    if i < s.len() {
        match group_at(s, i) {
            Some((alts, end)) => {
                if i < end <= s.len() {
                    lemma_group_never_empty(s, i);
                    law_braces_never_empty(s.skip(end));
                    let rests = braces(s.skip(end));
                    law_spread_len(s.take(i), alts, rests);
                    assert(alts.len() * rests.len() >= 1) by (nonlinear_arith)
                        requires
                            alts.len() >= 1,
                            rests.len() >= 1,
                    ;
                }
            },
            None => lemma_from_never_empty(s, i + 1),
        }
    }
}

proof fn lemma_group_never_empty(s: Seq<char>, i: int)
    requires
        0 <= i < s.len(),
    ensures
        group_at(s, i) matches Some((alts, _)) ==> alts.len() >= 1,
    decreases s.len(), 0nat,
{
    if s[i] == '{' {
        if let Some(k) = group_close(s, i + 1, 0) {
            if i < k < s.len() {
                let body = s.subrange(i + 1, k);
                let parts = comma_parts(body, 0, 0, 0);
                if parts.len() > 1 {
                    lemma_comma_parts_short(body, 0, 0, 0);
                    let bound = (s.len() - 1) as nat;
                    assert(parts[parts.len() - 1].len() < bound);
                    law_braces_never_empty(parts.last());
                }
            }
        }
    }
}

/// The variants of a word are as many as there are ways to choose among the
/// texts of its literals.
pub proof fn law_crossed_len(words: Seq<Seq<PartView>>, choices: Seq<PartView>)
    ensures
        crossed(words, choices).len() == words.len() * choices.len(),
    decreases words.len(),
{
    if words.len() == 0 {
        assert(0 * choices.len() == 0);
    } else {
        law_crossed_len(words.drop_last(), choices);
        assert((words.len() - 1) * choices.len() + choices.len() == words.len() * choices.len())
            by (nonlinear_arith);
    }
}

/// A word without unquoted literals is its own only variant: quoting and
/// expansions never take part.
pub proof fn law_only_literals_expand(parts: Seq<PartView>)
    requires
        forall|k: int| 0 <= k < parts.len() ==> !(#[trigger] parts[k] is Lit),
    ensures
        variants(parts) == seq![parts],
    decreases parts.len(),
{
    if parts.len() > 0 {
        let head = parts.drop_last();
        assert forall|k: int| 0 <= k < head.len() implies !(#[trigger] head[k] is Lit) by {
            assert(!(parts[k] is Lit));
        }
        law_only_literals_expand(head);
        let last = parts.last();
        assert(!(parts[parts.len() - 1] is Lit));
        assert(part_choices(last) == seq![last]);
        assert(seq![head].drop_last() =~= Seq::<Seq<PartView>>::empty());
        assert(crossed(seq![head].drop_last(), seq![last]) =~= Seq::<Seq<PartView>>::empty());
        assert(with_choices(head, seq![last]) =~= seq![head.push(last)]);
        assert(head.push(last) =~= parts);
        assert(crossed(seq![head], seq![last]) =~= seq![parts]);
    } else {
        assert(parts =~= Seq::<PartView>::empty());
    }
}

/// The text `head{x,y}rest`.
pub open spec fn pair_group(
    head: Seq<char>,
    x: Seq<char>,
    y: Seq<char>,
    rest: Seq<char>,
) -> Seq<char> {
    head + seq!['{'] + x + seq![','] + y + seq!['}'] + rest
}

/// A text without `{`, `}` and `,`.
pub open spec fn is_plain(s: Seq<char>) -> bool {
    !s.contains('{') && !s.contains('}') && !s.contains(',')
}

proof fn lemma_close_skips(s: Seq<char>, i: int, k: int)
    requires
        0 <= i <= k < s.len(),
        forall|j: int| i <= j < k ==> s[j] != '{' && s[j] != '}',
        s[k] == '}',
    ensures
        group_close(s, i, 0) == Some(k),
    decreases k - i,
{
    if i < k {
        lemma_close_skips(s, i + 1, k);
    }
}

proof fn lemma_parts_skip(body: Seq<char>, start: int, i: int, k: int)
    requires
        0 <= start <= i <= k <= body.len(),
        forall|j: int| i <= j < k ==> body[j] != '{' && body[j] != '}' && body[j] != ',',
    ensures
        comma_parts(body, start, i, 0) == comma_parts(body, start, k, 0),
    decreases k - i,
{
    if i < k {
        lemma_parts_skip(body, start, i + 1, k);
    }
}

proof fn lemma_from_skips(s: Seq<char>, i: int, k: int)
    requires
        0 <= i <= k <= s.len(),
        forall|j: int| i <= j < k ==> s[j] != '{',
    ensures
        braces_from(s, i) == braces_from(s, k),
    decreases k - i,
{
    if i < k {
        assert(group_at(s, i) is None);
        lemma_from_skips(s, i + 1, k);
    }
}

/// A comma group spreads over what follows it: with no group before it, each of
/// its alternatives goes, with what is before the group, before everything that
/// the rest expands to.
pub proof fn law_pair_spreads(head: Seq<char>, x: Seq<char>, y: Seq<char>, rest: Seq<char>)
    requires
        !head.contains('{'),
        is_plain(x),
        is_plain(y),
    ensures
        braces(pair_group(head, x, y, rest)) == with_head(head + x, braces(rest)) + with_head(
            head + y,
            braces(rest),
        ),
{
    let s = pair_group(head, x, y, rest);
    let i = head.len() as int;
    let c = i + 1 + x.len();
    let k = c + 1 + y.len();
    assert forall|j: int| 0 <= j < i implies s[j] != '{' by {
        assert(s[j] == head[j]);
        assert(head.contains(head[j]));
    }
    assert(s[i] == '{');
    assert forall|j: int| i + 1 <= j < c implies s[j] != '{' && s[j] != '}' && s[j] != ',' by {
        assert(s[j] == x[j - i - 1]);
        assert(x.contains(x[j - i - 1]));
    }
    assert(s[c] == ',');
    assert forall|j: int| c + 1 <= j < k implies s[j] != '{' && s[j] != '}' && s[j] != ',' by {
        assert(s[j] == y[j - c - 1]);
        assert(y.contains(y[j - c - 1]));
    }
    assert(s[k] == '}');
    assert(s.len() == k + 1 + rest.len());
    lemma_from_skips(s, 0, i);
    lemma_close_skips(s, i + 1, k);
    let body = s.subrange(i + 1, k);
    let m = x.len() as int;
    assert forall|j: int| 0 <= j < body.len() implies body[j] == s[i + 1 + j] by {}
    lemma_parts_skip(body, 0, 0, m);
    lemma_parts_skip(body, m + 1, m + 1, body.len() as int);
    assert(body[m] == ',');
    assert(body.subrange(0, m) =~= x);
    assert(body.subrange(m + 1, body.len() as int) =~= y);
    let parts = comma_parts(body, 0, 0, 0);
    assert(parts =~= seq![x, y]);
    law_no_brace_no_change(x);
    law_no_brace_no_change(y);
    let bound = (s.len() - 1) as nat;
    let none = Seq::<Seq<char>>::empty();
    assert(seq![x, y].drop_last() =~= seq![x]);
    assert(seq![x].drop_last() =~= none);
    assert(all_braces(none, bound) == none);
    assert(all_braces(seq![x], bound) =~= seq![x]);
    assert(all_braces(parts, bound) =~= seq![x, y]);
    assert(group_at(s, i) == Some((seq![x, y], k + 1)));
    assert(s.take(i) =~= head);
    assert(s.skip(k + 1) =~= rest);
    let rests = braces(rest);
    assert(spread(head, none, rests) == none);
    assert(spread(head, seq![x], rests) =~= with_head(head + x, rests));
    assert(spread(head, seq![x, y], rests) == spread(head, seq![x], rests) + with_head(
        head + y,
        rests,
    ));
}

/// How many variants a word has: the product of the numbers of choices of its
/// parts.
pub open spec fn choice_product(parts: Seq<PartView>) -> nat
    decreases parts.len(),
{
    if parts.len() == 0 {
        1
    } else {
        choice_product(parts.drop_last()) * part_choices(parts.last()).len()
    }
}

/// Which of its choices the part at `k` has in the variant at `n`: the digit at
/// `k` of the number `n`, written with the leftmost digit first and as many
/// digits for each part as it has choices.
pub open spec fn choice_digit(parts: Seq<PartView>, n: int, k: int) -> int
    decreases parts.len(),
{
    if parts.len() == 0 {
        0
    } else {
        let c = part_choices(parts.last()).len() as int;
        if k == parts.len() - 1 {
            n % c
        } else {
            choice_digit(parts.drop_last(), n / c, k)
        }
    }
}

/// The variant in which each part has the choice that `digits` gives it.
pub open spec fn choice_number(parts: Seq<PartView>, digits: Seq<int>) -> int
    decreases parts.len(),
{
    if parts.len() == 0 {
        0
    } else {
        let c = part_choices(parts.last()).len() as int;
        choice_number(parts.drop_last(), digits) * c + digits[parts.len() - 1]
    }
}

/// The variant at `n` makes the choices `digits`.
pub open spec fn makes_choices(parts: Seq<PartView>, n: int, digits: Seq<int>) -> bool {
    forall|k: int| 0 <= k < parts.len() ==> #[trigger] choice_digit(parts, n, k) == digits[k]
}

proof fn lemma_choices_len(part: PartView)
    ensures
        part_choices(part).len() >= 1,
        !(part is Lit) ==> part_choices(part) == seq![part],
        part matches PartView::Lit(text) ==> part_choices(part).len() == braces(text).len()
            && forall|k: int|
            0 <= k < braces(text).len() ==> #[trigger] part_choices(part)[k] == PartView::Lit(
                braces(text)[k],
            ),
{
    if let PartView::Lit(text) = part {
        law_braces_never_empty(text);
    }
}

proof fn lemma_crossed_at(words: Seq<Seq<PartView>>, choices: Seq<PartView>, a: int, b: int)
    requires
        0 <= a < words.len(),
        0 <= b < choices.len(),
    ensures
        a * choices.len() + b < crossed(words, choices).len(),
        0 <= a * choices.len() + b,
        crossed(words, choices)[a * choices.len() + b] == words[a].push(choices[b]),
    decreases words.len(),
{
    let head = words.drop_last();
    let n = choices.len() as int;
    law_crossed_len(words, choices);
    law_crossed_len(head, choices);
    assert(0 <= a * n) by (nonlinear_arith)
        requires
            0 <= a,
            0 <= n,
    ;
    if a < head.len() {
        lemma_crossed_at(head, choices, a, b);
        assert(crossed(words, choices)[a * n + b] == crossed(head, choices)[a * n + b]);
        assert(words[a] == head[a]);
    } else {
        assert(a == head.len());
        assert(crossed(words, choices)[a * n + b] == with_choices(words.last(), choices)[b]);
    }
    assert(a * n + b < words.len() * n) by (nonlinear_arith)
        requires
            a < words.len(),
            b < n,
            0 <= n,
    ;
}

/// The variants of a word are all ways to choose among the texts of its
/// literals: as many as the product of their numbers, in the order of the
/// numbers that the choices write, so that the leftmost part varies slowest.
/// Every other part stays as it is.
pub proof fn law_variants_are_the_product(parts: Seq<PartView>, n: int)
    ensures
        variants(parts).len() == choice_product(parts),
        0 <= n < variants(parts).len() ==> {
            let v = variants(parts)[n];
            &&& v.len() == parts.len()
            &&& forall|k: int|
                0 <= k < parts.len() ==> {
                    &&& 0 <= #[trigger] choice_digit(parts, n, k) < part_choices(parts[k]).len()
                    &&& v[k] == part_choices(parts[k])[choice_digit(parts, n, k)]
                    &&& !(parts[k] is Lit) ==> v[k] == parts[k]
                    &&& parts[k] matches PartView::Lit(text) ==> v[k] == PartView::Lit(
                        braces(text)[choice_digit(parts, n, k)],
                    )
                }
        },
    decreases parts.len(),
{
    if parts.len() > 0 {
        let head = parts.drop_last();
        let last = parts.last();
        let choices = part_choices(last);
        let c = choices.len() as int;
        let words = variants(head);
        law_crossed_len(words, choices);
        lemma_choices_len(last);
        law_variants_are_the_product(head, n / c);
        if 0 <= n < variants(parts).len() {
            let a = n / c;
            let b = n % c;
            assert(0 <= b < c && 0 <= a < words.len() && a * c + b == n) by (nonlinear_arith)
                requires
                    c >= 1,
                    0 <= n < words.len() * c,
                    a == n / c,
                    b == n % c,
            ;
            lemma_crossed_at(words, choices, a, b);
            let v = variants(parts)[n];
            assert(v == words[a].push(choices[b]));
            assert forall|k: int| 0 <= k < parts.len() implies {
                &&& 0 <= #[trigger] choice_digit(parts, n, k) < part_choices(parts[k]).len()
                &&& v[k] == part_choices(parts[k])[choice_digit(parts, n, k)]
                &&& !(parts[k] is Lit) ==> v[k] == parts[k]
                &&& parts[k] matches PartView::Lit(text) ==> v[k] == PartView::Lit(
                    braces(text)[choice_digit(parts, n, k)],
                )
            } by {
                lemma_choices_len(parts[k]);
                if k < parts.len() - 1 {
                    assert(choice_digit(parts, n, k) == choice_digit(head, a, k));
                    assert(parts[k] == head[k]);
                    assert(v[k] == words[a][k]);
                } else {
                    assert(choice_digit(parts, n, k) == b);
                    assert(parts[k] == last);
                }
            }
        }
    }
}

/// Each way to choose occurs once among the variants: the number that the
/// choices write is the only place where they are made.
pub proof fn law_each_choice_occurs_once(parts: Seq<PartView>, digits: Seq<int>)
    requires
        digits.len() >= parts.len(),
        forall|k: int|
            0 <= k < parts.len() ==> 0 <= #[trigger] digits[k] < part_choices(parts[k]).len(),
    ensures
        0 <= choice_number(parts, digits) < variants(parts).len(),
        makes_choices(parts, choice_number(parts, digits), digits),
        forall|n: int|
            0 <= n < variants(parts).len() && #[trigger] makes_choices(parts, n, digits) ==> n
                == choice_number(parts, digits),
    decreases parts.len(),
{
    law_variants_are_the_product(parts, 0);
    if parts.len() > 0 {
        let head = parts.drop_last();
        let last = parts.last();
        let c = part_choices(last).len() as int;
        let m = parts.len() - 1;
        lemma_choices_len(last);
        assert forall|k: int| 0 <= k < head.len() implies 0 <= #[trigger] digits[k]
            < part_choices(head[k]).len() by {
            assert(head[k] == parts[k]);
        }
        law_each_choice_occurs_once(head, digits);
        law_variants_are_the_product(head, 0);
        let a = choice_number(head, digits);
        let b = digits[m];
        let n = choice_number(parts, digits);
        assert(parts[m] == last);
        assert(0 <= b < c);
        assert(n == a * c + b);
        let size = choice_product(head) as int;
        assert(0 <= n < size * c && n / c == a && n % c == b) by (nonlinear_arith)
            requires
                0 <= a < size,
                0 <= b < c,
                n == a * c + b,
        ;
        assert forall|k: int| 0 <= k < parts.len() implies #[trigger] choice_digit(parts, n, k)
            == digits[k] by {
            if k < m {
                assert(choice_digit(parts, n, k) == choice_digit(head, a, k));
            }
        }
        assert forall|o: int|
            0 <= o < variants(parts).len() && #[trigger] makes_choices(parts, o, digits) implies o
            == n by {
            assert(choice_digit(parts, o, m) == o % c);
            assert(0 <= o / c < size && o == (o / c) * c + o % c) by (nonlinear_arith)
                requires
                    0 <= o < size * c,
                    c >= 1,
            ;
            assert forall|k: int| 0 <= k < head.len() implies #[trigger] choice_digit(
                head,
                o / c,
                k,
            ) == digits[k] by {
                assert(choice_digit(parts, o, k) == digits[k]);
            }
            assert(makes_choices(head, o / c, digits));
            assert(o / c == a);
        }
    }
}

} // verus!
