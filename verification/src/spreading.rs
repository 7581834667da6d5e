//! What brace groups stand for.

use vstd::prelude::*;

use crate::arith::magnitude;
use crate::brace::{
    all_braces, braces, braces_from, comma_parts, dot_pieces, group_at, group_close,
    is_plain, law_no_brace_no_change, law_spread_len, range_item, range_of, range_texts, spread,
};
use crate::number::{decimal, law_parse_reads_decimal, lemma_digits_are_digits};

verus! {

// ---------------------------------------------------------------------------
// Groups of alternatives.

/// How many braces are open after the first `i` characters of a text.
pub open spec fn open_braces(text: Seq<char>, i: int) -> int
    decreases i,
{
    if i <= 0 {
        0
    } else if text[i - 1] == '{' {
        open_braces(text, i - 1) + 1
    } else if text[i - 1] == '}' {
        open_braces(text, i - 1) - 1
    } else {
        open_braces(text, i - 1)
    }
}

/// The text can be an alternative of a group: its braces are in pairs, and all
/// its commas are between them.
pub open spec fn is_alternative(text: Seq<char>) -> bool {
    &&& forall|i: int| 0 <= i <= text.len() ==> #[trigger] open_braces(text, i) >= 0
    &&& open_braces(text, text.len() as int) == 0
    &&& forall|i: int|
        0 <= i < text.len() && #[trigger] text[i] == ',' ==> open_braces(text, i) > 0
}

/// The alternatives with commas between them.
pub open spec fn listed(alts: Seq<Seq<char>>) -> Seq<char>
    decreases alts.len(),
{
    if alts.len() == 0 {
        Seq::empty()
    } else if alts.len() == 1 {
        alts[0]
    } else {
        alts[0] + seq![','] + listed(alts.skip(1))
    }
}

/// What each of the alternatives expands to, one after the other.
pub open spec fn each_expanded(alts: Seq<Seq<char>>) -> Seq<Seq<char>>
    decreases alts.len(),
{
    if alts.len() == 0 {
        Seq::empty()
    } else {
        each_expanded(alts.drop_last()) + braces(alts.last())
    }
}

/// `text` stands in `s` at `off`.
spec fn stands(s: Seq<char>, off: int, text: Seq<char>) -> bool {
    &&& 0 <= off
    &&& off + text.len() <= s.len()
    &&& s.subrange(off, off + text.len()) == text
}

proof fn lemma_stands(s: Seq<char>, off: int, text: Seq<char>, i: int)
    requires
        stands(s, off, text),
        0 <= i < text.len(),
    ensures
        s[off + i] == text[i],
{
    assert(s.subrange(off, off + text.len())[i] == text[i]);
}

proof fn lemma_close_alternative(s: Seq<char>, off: int, text: Seq<char>, i: int)
    requires
        stands(s, off, text),
        is_alternative(text),
        0 <= i <= text.len(),
    ensures
        group_close(s, off + i, open_braces(text, i) as nat) == group_close(
            s,
            off + text.len(),
            0,
        ),
    decreases text.len() - i,
{
    if i < text.len() {
        lemma_stands(s, off, text, i);
        assert(open_braces(text, i) >= 0);
        assert(open_braces(text, i + 1) >= 0);
        lemma_close_alternative(s, off, text, i + 1);
    }
}

proof fn lemma_parts_alternative(s: Seq<char>, start: int, off: int, text: Seq<char>, i: int)
    requires
        stands(s, off, text),
        is_alternative(text),
        0 <= i <= text.len(),
        0 <= start <= off,
    ensures
        comma_parts(s, start, off + i, open_braces(text, i) as nat) == comma_parts(
            s,
            start,
            off + text.len(),
            0,
        ),
    decreases text.len() - i,
{
    if i < text.len() {
        lemma_stands(s, off, text, i);
        assert(open_braces(text, i) >= 0);
        assert(open_braces(text, i + 1) >= 0);
        assert(text[i] == ',' ==> open_braces(text, i) > 0);
        lemma_parts_alternative(s, start, off, text, i + 1);
    }
}

/// All of `alts` can be alternatives.
pub open spec fn are_alternatives(alts: Seq<Seq<char>>) -> bool {
    forall|k: int| 0 <= k < alts.len() ==> is_alternative(#[trigger] alts[k])
}

proof fn lemma_listed(alts: Seq<Seq<char>>)
    requires
        alts.len() > 1,
    ensures
        listed(alts) == alts[0] + seq![','] + listed(alts.skip(1)),
        alts.skip(1).len() == alts.len() - 1,
{
}

proof fn lemma_close_listed(s: Seq<char>, off: int, alts: Seq<Seq<char>>)
    requires
        stands(s, off, listed(alts)),
        alts.len() > 0,
        are_alternatives(alts),
    ensures
        group_close(s, off, 0) == group_close(s, off + listed(alts).len(), 0),
    decreases alts.len(),
{
    let all = listed(alts);
    let first = alts[0];
    let n = first.len() as int;
    assert(is_alternative(alts[0]));
    assert(all.take(n) =~= first);
    assert(s.subrange(off, off + n) =~= s.subrange(off, off + all.len()).take(n));
    lemma_close_alternative(s, off, first, 0);
    assert(open_braces(first, 0) == 0);
    if alts.len() > 1 {
        let rest = alts.skip(1);
        lemma_listed(alts);
        lemma_stands(s, off, all, n);
        assert(all[n] == ',');
        assert(all.skip(n + 1) =~= listed(rest));
        assert(s.subrange(off + n + 1, off + all.len()) =~= s.subrange(off, off + all.len()).skip(
            n + 1,
        ));
        assert forall|k: int| 0 <= k < rest.len() implies is_alternative(#[trigger] rest[k]) by {
            assert(is_alternative(alts[k + 1]));
        }
        assert(stands(s, off + n + 1, listed(rest)));
        lemma_close_listed(s, off + n + 1, rest);
    }
}

proof fn lemma_parts_listed(s: Seq<char>, off: int, alts: Seq<Seq<char>>)
    requires
        stands(s, off, listed(alts)),
        s.len() == off + listed(alts).len(),
        alts.len() > 0,
        are_alternatives(alts),
    ensures
        comma_parts(s, off, off, 0) == alts,
    decreases alts.len(),
{
    let all = listed(alts);
    let first = alts[0];
    let n = first.len() as int;
    assert(is_alternative(alts[0]));
    assert(all.take(n) =~= first);
    assert(s.subrange(off, off + n) =~= s.subrange(off, off + all.len()).take(n));
    lemma_parts_alternative(s, off, off, first, 0);
    assert(open_braces(first, 0) == 0);
    if alts.len() > 1 {
        let rest = alts.skip(1);
        lemma_listed(alts);
        lemma_stands(s, off, all, n);
        assert(all[n] == ',');
        assert(all.skip(n + 1) =~= listed(rest));
        assert(s.subrange(off + n + 1, off + all.len()) =~= s.subrange(off, off + all.len()).skip(
            n + 1,
        ));
        assert forall|k: int| 0 <= k < rest.len() implies is_alternative(#[trigger] rest[k]) by {
            assert(is_alternative(alts[k + 1]));
        }
        assert(stands(s, off + n + 1, listed(rest)));
        lemma_parts_listed(s, off + n + 1, rest);
        assert(comma_parts(s, off, off + n, 0) == seq![first] + rest);
        assert(seq![first] + rest =~= alts);
    } else {
        assert(s.subrange(off, s.len() as int) =~= first);
        assert(comma_parts(s, off, off + n, 0) == seq![first]);
        assert(seq![first] =~= alts);
    }
}

proof fn lemma_each_expanded(alts: Seq<Seq<char>>, bound: nat)
    requires
        forall|k: int| 0 <= k < alts.len() ==> (#[trigger] alts[k]).len() < bound,
    ensures
        all_braces(alts, bound) == each_expanded(alts),
    decreases alts.len(),
{
    if alts.len() > 0 {
        let head = alts.drop_last();
        assert(alts[alts.len() - 1].len() < bound);
        assert forall|k: int| 0 <= k < head.len() implies (#[trigger] head[k]).len() < bound by {
            assert(alts[k].len() < bound);
        }
        lemma_each_expanded(head, bound);
    }
}

proof fn lemma_listed_len(alts: Seq<Seq<char>>, k: int)
    requires
        0 <= k < alts.len(),
    ensures
        alts[k].len() <= listed(alts).len(),
    decreases alts.len(),
{
    if alts.len() > 1 {
        lemma_listed(alts);
        if k > 0 {
            lemma_listed_len(alts.skip(1), k - 1);
            assert(alts.skip(1)[k - 1] == alts[k]);
        }
    }
}

/// The text `head{body}rest`.
pub open spec fn in_braces(head: Seq<char>, body: Seq<char>, rest: Seq<char>) -> Seq<char> {
    head + seq!['{'] + body + seq!['}'] + rest
}

proof fn lemma_spread_at(
    prefix: Seq<char>,
    alts: Seq<Seq<char>>,
    rests: Seq<Seq<char>>,
    a: int,
    b: int,
)
    requires
        0 <= a < alts.len(),
        0 <= b < rests.len(),
    ensures
        0 <= a * rests.len() + b < spread(prefix, alts, rests).len(),
        spread(prefix, alts, rests)[a * rests.len() + b] == prefix + alts[a] + rests[b],
    decreases alts.len(),
{
    let head = alts.drop_last();
    let n = rests.len() as int;
    law_spread_len(prefix, alts, rests);
    law_spread_len(prefix, head, rests);
    assert(0 <= a * n && a * n + b < alts.len() * n) by (nonlinear_arith)
        requires
            0 <= a < alts.len(),
            0 <= b < n,
    ;
    if a < head.len() {
        lemma_spread_at(prefix, head, rests, a, b);
        assert(alts[a] == head[a]);
    } else {
        assert(a == head.len());
    }
}

/// `all` is every one of `alts` followed by every one of `rests`, with `head`
/// before each: the rests vary faster.
pub open spec fn is_product(
    all: Seq<Seq<char>>,
    head: Seq<char>,
    alts: Seq<Seq<char>>,
    rests: Seq<Seq<char>>,
) -> bool {
    &&& all.len() == alts.len() * rests.len()
    &&& forall|a: int, b: int|
        0 <= a < alts.len() && 0 <= b < rests.len() ==> #[trigger] all[a * rests.len() + b] == head
            + alts[a] + rests[b]
}

proof fn lemma_group(head: Seq<char>, body: Seq<char>, rest: Seq<char>, alts: Seq<Seq<char>>)
    requires
        !head.contains('{'),
        group_at(in_braces(head, body, rest), head.len() as int) == Some(
            (alts, head.len() as int + body.len() + 2),
        ),
    ensures
        is_product(braces(in_braces(head, body, rest)), head, alts, braces(rest)),
{
    let s = in_braces(head, body, rest);
    let i = head.len() as int;
    let end = i + body.len() + 2;
    lemma_from(s, 0, i, head);
    assert(s.take(i) =~= head);
    assert(s.skip(end) =~= rest);
    let rests = braces(rest);
    assert(braces(s) == spread(head, alts, rests));
    law_spread_len(head, alts, rests);
    assert forall|a: int, b: int| 0 <= a < alts.len() && 0 <= b < rests.len() implies
        #[trigger] spread(head, alts, rests)[a * rests.len() + b] == head + alts[a] + rests[b] by {
        lemma_spread_at(head, alts, rests, a, b);
    }
}

proof fn lemma_from(s: Seq<char>, j: int, i: int, head: Seq<char>)
    requires
        0 <= j <= i == head.len(),
        i <= s.len(),
        s.take(i) == head,
        !head.contains('{'),
    ensures
        braces_from(s, j) == braces_from(s, i),
    decreases i - j,
{
    if j < i {
        assert(s.take(i)[j] == head[j]);
        assert(head.contains(head[j]));
        assert(group_at(s, j) is None);
        lemma_from(s, j + 1, i, head);
    }
}

/// A group of two or more alternatives, with any groups inside them, stands for
/// what each of them expands to, in order; the texts go, with what is before
/// the group, before everything that the rest expands to.
pub proof fn law_groups_are_their_alternatives(
    head: Seq<char>,
    alts: Seq<Seq<char>>,
    rest: Seq<char>,
)
    requires
        !head.contains('{'),
        alts.len() >= 2,
        are_alternatives(alts),
    ensures
        is_product(
            braces(in_braces(head, listed(alts), rest)),
            head,
            each_expanded(alts),
            braces(rest),
        ),
{
    let body = listed(alts);
    let s = in_braces(head, body, rest);
    let i = head.len() as int;
    let k = i + 1 + body.len();
    assert(s[i] == '{');
    assert(s[k] == '}');
    assert(s.subrange(i + 1, k) =~= body);
    lemma_close_listed(s, i + 1, alts);
    assert(group_close(s, i + 1, 0) == Some(k));
    assert(body.subrange(0, body.len() as int) =~= body);
    lemma_parts_listed(body, 0, alts);
    let bound = (s.len() - 1) as nat;
    assert forall|j: int| 0 <= j < alts.len() implies (#[trigger] alts[j]).len() < bound by {
        lemma_listed_len(alts, j);
    }
    lemma_each_expanded(alts, bound);
    assert(group_at(s, i) == Some((each_expanded(alts), k + 1)));
    lemma_group(head, body, rest, each_expanded(alts));
}

proof fn lemma_plain_alternative(text: Seq<char>)
    requires
        is_plain(text),
    ensures
        is_alternative(text),
        braces(text) == seq![text],
{
    assert forall|i: int| 0 <= i <= text.len() implies #[trigger] open_braces(text, i) == 0 by {
        lemma_plain_open(text, i);
    }
    assert forall|i: int| 0 <= i < text.len() implies #[trigger] text[i] != ',' by {
        assert(text.contains(text[i]));
    }
    law_no_brace_no_change(text);
}

proof fn lemma_plain_open(text: Seq<char>, i: int)
    requires
        is_plain(text),
        0 <= i <= text.len(),
    ensures
        open_braces(text, i) == 0,
    decreases i,
{
    if i > 0 {
        assert(text.contains(text[i - 1]));
        lemma_plain_open(text, i - 1);
    }
}

proof fn lemma_plain_each(alts: Seq<Seq<char>>)
    requires
        forall|k: int| 0 <= k < alts.len() ==> is_plain(#[trigger] alts[k]),
    ensures
        each_expanded(alts) == alts,
    decreases alts.len(),
{
    if alts.len() > 0 {
        let head = alts.drop_last();
        assert(is_plain(alts[alts.len() - 1]));
        lemma_plain_alternative(alts.last());
        assert forall|k: int| 0 <= k < head.len() implies is_plain(#[trigger] head[k]) by {
            assert(is_plain(alts[k]));
        }
        lemma_plain_each(head);
        assert(head + seq![alts.last()] =~= alts);
    } else {
        assert(alts =~= Seq::<Seq<char>>::empty());
    }
}

/// A group of two or more plain words, `{a,b,c}`, is these words in order, each
/// with what is before the group and everything that the rest expands to.
pub proof fn law_plain_groups_are_their_words(
    head: Seq<char>,
    words: Seq<Seq<char>>,
    rest: Seq<char>,
)
    requires
        !head.contains('{'),
        words.len() >= 2,
        forall|k: int| 0 <= k < words.len() ==> is_plain(#[trigger] words[k]),
    ensures
        is_product(braces(in_braces(head, listed(words), rest)), head, words, braces(rest)),
        braces(seq!['{'] + listed(words) + seq!['}']) == words,
{
    assert forall|k: int| 0 <= k < words.len() implies is_alternative(#[trigger] words[k]) by {
        assert(is_plain(words[k]));
        lemma_plain_alternative(words[k]);
    }
    lemma_plain_each(words);
    law_groups_are_their_alternatives(head, words, rest);
    let none = Seq::<char>::empty();
    law_groups_are_their_alternatives(none, words, none);
    law_no_brace_no_change(none);
    let s = in_braces(none, listed(words), none);
    assert(s =~= seq!['{'] + listed(words) + seq!['}']);
    let all = braces(s);
    assert(all.len() == words.len() * 1);
    assert forall|a: int| 0 <= a < words.len() implies all[a] == words[a] by {
        let b = 0int;
        assert(all[a * braces(none).len() + b] == none + words[a] + braces(none)[b]);
        assert(a * 1 + 0 == a);
        assert(none + words[a] + none =~= words[a]);
    }
    assert(all =~= words);
}

// ---------------------------------------------------------------------------
// Texts that are no groups.

/// A `{` that no `}` follows stands for itself, and so does all of the text.
pub proof fn law_open_groups_stay(s: Seq<char>)
    requires
        !s.contains('}'),
    ensures
        braces(s) == seq![s],
{
    lemma_never_closed(s, 0);
}

proof fn lemma_never_closed(s: Seq<char>, i: int)
    requires
        !s.contains('}'),
        0 <= i <= s.len(),
    ensures
        braces_from(s, i) == seq![s],
    decreases s.len() - i,
{
    if i < s.len() {
        lemma_no_close(s, i + 1, 0);
        assert(group_at(s, i) is None);
        lemma_never_closed(s, i + 1);
    }
}

proof fn lemma_no_close(s: Seq<char>, i: int, depth: nat)
    requires
        !s.contains('}'),
        0 <= i,
    ensures
        group_close(s, i, depth) is None,
    decreases s.len() - i,
{
    if i < s.len() {
        assert(s.contains(s[i]));
        if s[i] == '{' {
            lemma_no_close(s, i + 1, depth + 1);
        } else {
            lemma_no_close(s, i + 1, depth);
        }
    }
}

/// `..` stands somewhere in the text.
pub open spec fn has_dots(text: Seq<char>) -> bool {
    exists|i: int| 0 <= i && i + 1 < text.len() && #[trigger] text[i] == '.' && text[i + 1] == '.'
}

proof fn lemma_no_dots(s: Seq<char>, start: int, i: int)
    requires
        0 <= start <= i <= s.len(),
        forall|j: int|
            i <= j && j + 1 < s.len() && #[trigger] s[j] == '.' ==> s[j + 1] != '.',
    ensures
        dot_pieces(s, start, i) == seq![s.subrange(start, s.len() as int)],
    decreases s.len() - i,
{
    if i + 1 < s.len() {
        lemma_no_dots(s, start, i + 1);
    }
}

/// A plain text in braces that is neither a list nor a range, such as `{x}` and
/// `{}`, stays as it is, braces and all.
pub proof fn law_other_groups_stay(head: Seq<char>, text: Seq<char>, rest: Seq<char>)
    requires
        !head.contains('{'),
        is_plain(text),
        !has_dots(text),
        !rest.contains('{'),
    ensures
        braces(in_braces(head, text, rest)) == seq![in_braces(head, text, rest)],
{
    lemma_no_dots(text, 0, 0);
    lemma_no_group_stays(head, text, rest);
}

proof fn lemma_rest_stays(s: Seq<char>, i: int)
    requires
        0 <= i <= s.len(),
        forall|j: int| i <= j < s.len() ==> s[j] != '{',
    ensures
        braces_from(s, i) == seq![s],
    decreases s.len() - i,
{
    if i < s.len() {
        assert(group_at(s, i) is None);
        lemma_rest_stays(s, i + 1);
    }
}

proof fn lemma_one_body(head: Seq<char>, text: Seq<char>, rest: Seq<char>)
    requires
        is_plain(text),
    ensures
        ({
            let s = in_braces(head, text, rest);
            let i = head.len() as int;
            let k = i + 1 + text.len();
            &&& s[i] == '{'
            &&& k < s.len()
            &&& group_close(s, i + 1, 0) == Some(k)
            &&& s.subrange(i + 1, k) == text
            &&& comma_parts(text, 0, 0, 0) == seq![text]
        }),
{
    let s = in_braces(head, text, rest);
    let i = head.len() as int;
    let k = i + 1 + text.len();
    assert(s[k] == '}');
    assert(s.subrange(i + 1, k) =~= text);
    lemma_plain_alternative(text);
    let one = seq![text];
    assert(listed(one) == text);
    assert(is_alternative(one[0]));
    assert(are_alternatives(one));
    lemma_close_listed(s, i + 1, one);
    assert(text.subrange(0, text.len() as int) =~= text);
    lemma_parts_listed(text, 0, one);
}

// ---------------------------------------------------------------------------
// Ranges.

proof fn lemma_decimal_plain(n: int)
    ensures
        is_plain(decimal(n)),
        !decimal(n).contains('.'),
        decimal(n).len() > 0,
{
    let m = (if n < 0 {
        -n
    } else {
        n
    }) as nat;
    lemma_digits_are_digits(m);
    let s = decimal(n);
    assert forall|c: char| #[trigger] s.contains(c) implies c != '{' && c != '}' && c != ',' && c
        != '.' by {
        let i = choose|i: int| 0 <= i < s.len() && s[i] == c;
        if n < 0 && i > 0 {
            assert(s[i] == crate::number::digits(m)[i - 1]);
        }
    }
}

proof fn lemma_dots_skip(s: Seq<char>, start: int, i: int, k: int)
    requires
        0 <= start <= i <= k,
        k + 1 < s.len(),
        forall|j: int| i <= j < k ==> s[j] != '.',
    ensures
        dot_pieces(s, start, i) == dot_pieces(s, start, k),
    decreases k - i,
{
    if i < k {
        lemma_dots_skip(s, start, i + 1, k);
    }
}

proof fn lemma_dots(a: Seq<char>, b: Seq<char>, start: int, s: Seq<char>)
    requires
        0 <= start,
        s.len() == start + a.len() + 2 + b.len(),
        s.subrange(start, s.len() as int) == a + seq!['.', '.'] + b,
        !a.contains('.'),
    ensures
        dot_pieces(s, start, start) == seq![a] + dot_pieces(
            s,
            start + a.len() + 2,
            start + a.len() + 2,
        ),
{
    let t = s.subrange(start, s.len() as int);
    let k = start + a.len();
    assert forall|j: int| start <= j < k implies s[j] != '.' by {
        assert(t[j - start] == s[j]);
        assert(a.contains(a[j - start]));
    }
    assert(t[a.len() as int] == s[k]);
    assert(t[a.len() as int + 1] == s[k + 1]);
    lemma_dots_skip(s, start, start, k);
    assert(s.subrange(start, k) =~= a) by {
        assert forall|j: int| 0 <= j < a.len() implies s[start + j] == a[j] by {
            assert(t[j] == s[start + j]);
        }
    }
}

proof fn lemma_last_piece(s: Seq<char>, start: int, b: Seq<char>)
    requires
        0 <= start <= s.len(),
        s.subrange(start, s.len() as int) == b,
        !b.contains('.'),
    ensures
        dot_pieces(s, start, start) == seq![b],
{
    assert forall|j: int|
        start <= j && j + 1 < s.len() && #[trigger] s[j] == '.' implies s[j + 1] != '.' by {
        assert(s.subrange(start, s.len() as int)[j - start] == s[j]);
        assert(b.contains(b[j - start]));
    }
    lemma_no_dots(s, start, start);
}

/// The text `a..b`.
pub open spec fn range_text(a: int, b: int) -> Seq<char> {
    decimal(a) + seq!['.', '.'] + decimal(b)
}

/// The text `a..b..step`.
pub open spec fn stepped_text(a: int, b: int, step: int) -> Seq<char> {
    decimal(a) + seq!['.', '.'] + (decimal(b) + seq!['.', '.'] + decimal(step))
}

/// `items` are the numbers from `a` toward `b` in steps as large as `step`, as
/// far as they do not go past `b`.
pub open spec fn counts(items: Seq<Seq<char>>, a: int, b: int, step: int) -> bool {
    let distance = if a <= b {
        b - a
    } else {
        a - b
    };
    let size = if step < 0 {
        -step
    } else {
        step
    };
    &&& items.len() >= 1
    &&& (items.len() - 1) * size <= distance < items.len() * size
    &&& forall|k: int|
        0 <= k < items.len() ==> #[trigger] items[k] == decimal(
            if a <= b {
                a + k * size
            } else {
                a - k * size
            },
        )
}

proof fn lemma_counts(a: int, b: int, step: int)
    requires
        step != 0,
    ensures
        counts(range_texts(a, b, magnitude(step)), a, b, step),
{
    let d = magnitude(b - a);
    let size = magnitude(step);
    let n = d / size + 1;
    assert(n >= 1 && (n - 1) * size <= d < n * size) by (nonlinear_arith)
        requires
            size > 0,
            d >= 0,
            n == d / size + 1,
    ;
    let items = range_texts(a, b, size);
    assert(items.len() == n);
    assert forall|k: int| 0 <= k < items.len() implies #[trigger] items[k] == decimal(
        if a <= b {
            a + k * size
        } else {
            a - k * size
        },
    ) by {
        assert(items[k] == decimal(range_item(a, b, size, k)));
    }
}

/// `{a..b}` is the numbers from `a` to `b`, up or down; `{a..b..s}` counts in
/// steps of `s`, whose sign makes no difference, and with steps of 0 it is no
/// group. All three numbers have 64 bits.
pub proof fn law_ranges_count(a: int, b: int, step: int, head: Seq<char>, rest: Seq<char>)
    requires
        i64::MIN <= a <= i64::MAX,
        i64::MIN <= b <= i64::MAX,
        i64::MIN <= step <= i64::MAX,
        !head.contains('{'),
    ensures
        exists|items: Seq<Seq<char>>|
            #[trigger] counts(items, a, b, 1) && is_product(
                braces(in_braces(head, range_text(a, b), rest)),
                head,
                items,
                braces(rest),
            ),
        step != 0 ==> exists|items: Seq<Seq<char>>|
            #[trigger] counts(items, a, b, step) && is_product(
                braces(in_braces(head, stepped_text(a, b, step), rest)),
                head,
                items,
                braces(rest),
            ),
        step == 0 && !rest.contains('{') ==> braces(in_braces(head, stepped_text(a, b, 0), rest))
            == seq![in_braces(head, stepped_text(a, b, 0), rest)],
{
    let i = head.len() as int;
    let one = range_text(a, b);
    let items = range_texts(a, b, 1);
    lemma_range_of(a, b);
    lemma_counts(a, b, 1);
    lemma_one_body(head, one, rest);
    assert(group_at(in_braces(head, one, rest), i) == Some((items, i + one.len() + 2)));
    lemma_group(head, one, rest, items);
    let two = stepped_text(a, b, step);
    lemma_stepped_range_of(a, b, step);
    lemma_one_body(head, two, rest);
    if step != 0 {
        let more = range_texts(a, b, magnitude(step));
        lemma_counts(a, b, step);
        assert(group_at(in_braces(head, two, rest), i) == Some((more, i + two.len() + 2)));
        lemma_group(head, two, rest, more);
    } else if !rest.contains('{') {
        lemma_no_group_stays(head, two, rest);
    }
}

proof fn lemma_no_group_stays(head: Seq<char>, text: Seq<char>, rest: Seq<char>)
    requires
        !head.contains('{'),
        is_plain(text),
        range_of(text) is None,
        !rest.contains('{'),
    ensures
        braces(in_braces(head, text, rest)) == seq![in_braces(head, text, rest)],
{
    let s = in_braces(head, text, rest);
    let i = head.len() as int;
    lemma_one_body(head, text, rest);
    assert(group_at(s, i) is None);
    assert(s.take(i) =~= head);
    lemma_from(s, 0, i, head);
    assert forall|j: int| i < j < s.len() implies s[j] != '{' by {
        let k = i + 1 + text.len();
        if j < k {
            assert(s[j] == text[j - i - 1]);
            assert(text.contains(text[j - i - 1]));
        } else if j > k {
            assert(s[j] == rest[j - k - 1]);
            assert(rest.contains(rest[j - k - 1]));
        }
    }
    lemma_rest_stays(s, i + 1);
}

proof fn lemma_plain_dots(x: Seq<char>, y: Seq<char>)
    requires
        is_plain(x),
        is_plain(y),
    ensures
        is_plain(x + seq!['.', '.'] + y),
{
    let all = x + seq!['.', '.'] + y;
    assert forall|c: char| #[trigger] all.contains(c) implies c == '.' || x.contains(c)
        || y.contains(c) by {
        let i = choose|i: int| 0 <= i < all.len() && all[i] == c;
        if i < x.len() {
            assert(x[i] == c);
        } else if i >= x.len() + 2 {
            assert(y[i - x.len() - 2] == c);
        }
    }
}

proof fn lemma_range_of(a: int, b: int)
    requires
        i64::MIN <= a <= i64::MAX,
        i64::MIN <= b <= i64::MAX,
    ensures
        is_plain(range_text(a, b)),
        range_of(range_text(a, b)) == Some(range_texts(a, b, 1)),
{
    let x = decimal(a);
    let y = decimal(b);
    lemma_decimal_plain(a);
    lemma_decimal_plain(b);
    lemma_plain_dots(x, y);
    law_parse_reads_decimal(a, i64::MIN as int, i64::MAX as int);
    law_parse_reads_decimal(b, i64::MIN as int, i64::MAX as int);
    let one = range_text(a, b);
    let m = x.len() as int + 2;
    assert(one.subrange(0, one.len() as int) =~= x + seq!['.', '.'] + y);
    lemma_dots(x, y, 0, one);
    assert(one.subrange(m, one.len() as int) =~= y);
    lemma_last_piece(one, m, y);
    assert(seq![x] + seq![y] =~= seq![x, y]);
}

proof fn lemma_stepped_range_of(a: int, b: int, step: int)
    requires
        i64::MIN <= a <= i64::MAX,
        i64::MIN <= b <= i64::MAX,
        i64::MIN <= step <= i64::MAX,
    ensures
        is_plain(stepped_text(a, b, step)),
        range_of(stepped_text(a, b, step)) == if step == 0 {
            None
        } else {
            Some(range_texts(a, b, magnitude(step)))
        },
{
    let x = decimal(a);
    let y = decimal(b);
    let z = decimal(step);
    lemma_decimal_plain(a);
    lemma_decimal_plain(b);
    lemma_decimal_plain(step);
    let tail = y + seq!['.', '.'] + z;
    lemma_plain_dots(y, z);
    lemma_plain_dots(x, tail);
    law_parse_reads_decimal(a, i64::MIN as int, i64::MAX as int);
    law_parse_reads_decimal(b, i64::MIN as int, i64::MAX as int);
    law_parse_reads_decimal(step, i64::MIN as int, i64::MAX as int);
    let two = stepped_text(a, b, step);
    let m = x.len() as int + 2;
    assert(two.subrange(0, two.len() as int) =~= x + seq!['.', '.'] + tail);
    lemma_dots(x, tail, 0, two);
    assert(two.subrange(m, two.len() as int) =~= tail);
    lemma_dots(y, z, m, two);
    let k = m + y.len() + 2;
    assert(two.subrange(k, two.len() as int) =~= z);
    lemma_last_piece(two, k, z);
    assert(seq![x] + (seq![y] + seq![z]) =~= seq![x, y, z]);
    assert(dot_pieces(two, 0, 0) == seq![x, y, z]);
}

} // verus!
