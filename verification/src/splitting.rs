//! How the parts of a word split into fields, and what patterns among them
//! become.

use vstd::prelude::*;

use crate::arith::Vars;
use crate::brace::variants;
use crate::expand::{
    after_segments, all_fields, argv_fields, class_pattern, content_end, delimiter_end, empty_field,
    expanded_word, field_texts, fields_of, globbed, hard_at, has_meta, is_meta, merged, part_segment,
    readable, segments, segments_text, separators, soft, soft_end, split_from, unsplit, word_fields,
    FieldView, Found, SegView, Splitting,
};
use crate::lexer::PartView;
use crate::order::{in_order, law_sorted};
use crate::pattern::escaped;
use crate::text::is_white_space;

verus! {

/// A splitting character that is not white space.
pub open spec fn is_hard(ifs: Seq<char>, c: char) -> bool {
    ifs.contains(c) && !is_white_space(c)
}

/// Splitting white space only.
pub open spec fn all_soft(ifs: Seq<char>, d: Seq<char>) -> bool {
    forall|k: int| 0 <= k < d.len() ==> ifs.contains(#[trigger] d[k]) && is_white_space(d[k])
}

/// One splitting character that is not white space, at `h`, with splitting
/// white space around it.
pub open spec fn hard_delimiter(ifs: Seq<char>, d: Seq<char>, h: int) -> bool {
    &&& 0 <= h < d.len()
    &&& is_hard(ifs, d[h])
    &&& all_soft(ifs, d.take(h))
    &&& all_soft(ifs, d.skip(h + 1))
}

/// The delimiter holds a splitting character that is not white space.
pub open spec fn is_hard_delimiter(ifs: Seq<char>, d: Seq<char>) -> bool {
    exists|h: int| #[trigger] hard_delimiter(ifs, d, h)
}

/// A delimiter: a run of splitting white space, or one other splitting
/// character with the splitting white space around it.
pub open spec fn is_delimiter(ifs: Seq<char>, d: Seq<char>) -> bool {
    (d.len() > 0 && all_soft(ifs, d)) || is_hard_delimiter(ifs, d)
}

/// The pieces, each with its delimiter before it.
pub open spec fn delimited(pieces: Seq<Seq<char>>, delimiters: Seq<Seq<char>>) -> Seq<char>
    decreases pieces.len(),
{
    if pieces.len() == 0 {
        Seq::empty()
    } else {
        delimiters[0] + (pieces[0] + delimited(pieces.skip(1), delimiters.skip(1)))
    }
}

/// The pieces hold no splitting characters, the delimiters are delimiters, and
/// an empty piece before the last one stands between two delimiters that are
/// not white space alone.
pub open spec fn splits_so(
    ifs: Seq<char>,
    pieces: Seq<Seq<char>>,
    delimiters: Seq<Seq<char>>,
) -> bool {
    &&& pieces.len() == delimiters.len()
    &&& forall|k: int| 0 <= k < pieces.len() ==> unsplit(#[trigger] pieces[k], ifs)
    &&& forall|k: int| 0 <= k < pieces.len() ==> is_delimiter(ifs, #[trigger] delimiters[k])
    &&& forall|k: int|
        0 <= k < pieces.len() - 1 && (#[trigger] pieces[k]).len() == 0 ==> is_hard_delimiter(
            ifs,
            delimiters[k],
        ) && is_hard(ifs, delimiters[k + 1][0])
}

/// A field with the text of an expansion.
pub open spec fn live_field(text: Seq<char>) -> FieldView {
    FieldView { text, pattern: text, has_meta: has_meta(text) }
}

/// A field for each of the pieces; a last one that is empty leaves none.
pub open spec fn piece_fields(pieces: Seq<Seq<char>>) -> Seq<FieldView> {
    let kept = if pieces.len() > 0 && pieces.last().len() == 0 {
        pieces.drop_last()
    } else {
        pieces
    };
    Seq::new(kept.len(), |k: int| live_field(kept[k]))
}

/// `w` stands in `t` at `off`.
spec fn stands(t: Seq<char>, off: int, w: Seq<char>) -> bool {
    &&& 0 <= off
    &&& off + w.len() <= t.len()
    &&& forall|k: int| 0 <= k < w.len() ==> t[off + k] == #[trigger] w[k]
}

proof fn lemma_stands(t: Seq<char>, off: int, a: Seq<char>, b: Seq<char>)
    requires
        stands(t, off, a + b),
    ensures
        stands(t, off, a),
        stands(t, off + a.len(), b),
{
    let w = a + b;
    assert forall|k: int| 0 <= k < a.len() implies t[off + k] == #[trigger] a[k] by {
        assert(t[off + k] == w[k]);
    }
    assert forall|k: int| 0 <= k < b.len() implies t[off + a.len() + k] == #[trigger] b[k] by {
        assert(t[off + (a.len() + k)] == w[a.len() + k]);
    }
}

proof fn lemma_soft_run(t: Seq<char>, ifs: Seq<char>, i: int, d: Seq<char>)
    requires
        stands(t, i, d),
        all_soft(ifs, d),
        i + d.len() < t.len() ==> !soft(ifs, t[i + d.len()]),
    ensures
        soft_end(t, ifs, i) == i + d.len(),
    decreases d.len(),
{
    if d.len() > 0 {
        assert(t[i + 0] == d[0]);
        let rest = d.skip(1);
        assert(stands(t, i + 1, rest)) by {
            assert forall|k: int| 0 <= k < rest.len() implies t[i + 1 + k] == #[trigger] rest[k] by {
                assert(t[i + (k + 1)] == d[k + 1]);
            }
        }
        assert(all_soft(ifs, rest)) by {
            assert forall|k: int| 0 <= k < rest.len() implies ifs.contains(#[trigger] rest[k])
                && is_white_space(rest[k]) by {
                assert(ifs.contains(d[k + 1]));
            }
        }
        assert(ifs.contains(d[0]));
        lemma_soft_run(t, ifs, i + 1, rest);
    }
}

proof fn lemma_content_run(t: Seq<char>, ifs: Seq<char>, i: int, p: Seq<char>)
    requires
        stands(t, i, p),
        unsplit(p, ifs),
        i + p.len() < t.len() ==> ifs.contains(t[i + p.len()]),
    ensures
        content_end(t, ifs, i) == i + p.len(),
    decreases p.len(),
{
    if p.len() > 0 {
        assert(t[i + 0] == p[0]);
        let rest = p.skip(1);
        assert(stands(t, i + 1, rest)) by {
            assert forall|k: int| 0 <= k < rest.len() implies t[i + 1 + k] == #[trigger] rest[k] by {
                assert(t[i + (k + 1)] == p[k + 1]);
            }
        }
        assert(unsplit(rest, ifs)) by {
            assert forall|k: int| 0 <= k < rest.len() implies !ifs.contains(#[trigger] rest[k]) by {
                assert(!ifs.contains(p[k + 1]));
            }
        }
        assert(!ifs.contains(p[0]));
        lemma_content_run(t, ifs, i + 1, rest);
    }
}

proof fn lemma_delimiter(t: Seq<char>, ifs: Seq<char>, i: int, d: Seq<char>)
    requires
        stands(t, i, d),
        is_delimiter(ifs, d),
        i + d.len() < t.len() ==> !soft(ifs, t[i + d.len()]),
        i + d.len() < t.len() && !is_hard_delimiter(ifs, d) ==> !ifs.contains(t[i + d.len()]),
    ensures
        delimiter_end(t, ifs, i) == i + d.len(),
        hard_at(t, ifs, i) == is_hard_delimiter(ifs, d),
        d.len() > 0,
{
    if is_hard_delimiter(ifs, d) {
        let h = choose|h: int| #[trigger] hard_delimiter(ifs, d, h);
        let a = d.take(h);
        let b = d.skip(h + 1);
        assert(stands(t, i, a)) by {
            assert forall|k: int| 0 <= k < a.len() implies t[i + k] == #[trigger] a[k] by {
                assert(t[i + k] == d[k]);
            }
        }
        assert(t[i + h] == d[h]);
        lemma_soft_run(t, ifs, i, a);
        assert(stands(t, i + h + 1, b)) by {
            assert forall|k: int| 0 <= k < b.len() implies t[i + h + 1 + k] == #[trigger] b[k] by {
                assert(t[i + (h + 1 + k)] == d[h + 1 + k]);
            }
        }
        lemma_soft_run(t, ifs, i + h + 1, b);
    } else {
        lemma_soft_run(t, ifs, i, d);
    }
}

proof fn lemma_splits_rest(ifs: Seq<char>, pieces: Seq<Seq<char>>, delimiters: Seq<Seq<char>>)
    requires
        splits_so(ifs, pieces, delimiters),
        pieces.len() > 0,
    ensures
        splits_so(ifs, pieces.skip(1), delimiters.skip(1)),
{
    let p = pieces.skip(1);
    let d = delimiters.skip(1);
    assert forall|k: int| 0 <= k < p.len() implies unsplit(#[trigger] p[k], ifs) by {
        assert(unsplit(pieces[k + 1], ifs));
    }
    assert forall|k: int| 0 <= k < p.len() implies is_delimiter(ifs, #[trigger] d[k]) by {
        assert(is_delimiter(ifs, delimiters[k + 1]));
    }
    assert forall|k: int|
        0 <= k < p.len() - 1 && (#[trigger] p[k]).len() == 0 implies is_hard_delimiter(ifs, d[k])
        && is_hard(ifs, d[k + 1][0]) by {
        assert(p[k] == pieces[k + 1]);
        assert(d[k + 1] == delimiters[k + 2]);
    }
}

/// A delimiter starts with a splitting character.
proof fn lemma_delimiter_first(ifs: Seq<char>, d: Seq<char>)
    requires
        is_delimiter(ifs, d),
    ensures
        d.len() > 0,
        ifs.contains(d[0]),
{
    if is_hard_delimiter(ifs, d) {
        let h = choose|h: int| #[trigger] hard_delimiter(ifs, d, h);
        if h > 0 {
            assert(d.take(h)[0] == d[0]);
            assert(ifs.contains(d.take(h)[0]));
        }
    } else {
        assert(ifs.contains(d[0]));
    }
}

proof fn lemma_live(text: Seq<char>)
    ensures
        empty_field().with_live(text) == live_field(text),
{
    assert(Seq::<char>::empty() + text =~= text);
}

proof fn lemma_delimited(
    state: Splitting,
    t: Seq<char>,
    ifs: Seq<char>,
    i: int,
    pieces: Seq<Seq<char>>,
    delimiters: Seq<Seq<char>>,
)
    requires
        splits_so(ifs, pieces, delimiters),
        stands(t, i, delimited(pieces, delimiters)),
        i + delimited(pieces, delimiters).len() == t.len(),
    ensures
        pieces.len() == 0 ==> split_from(state, t, ifs, i) == state,
        pieces.len() > 0 ==> split_from(state, t, ifs, i).all() == state.closed_by(
            is_hard_delimiter(ifs, delimiters[0]),
        ).done + piece_fields(pieces),
        pieces.len() > 0 && pieces.last().len() == 0 ==> split_from(state, t, ifs, i).current is None,
        pieces.len() > 0 && pieces.last().len() > 0 ==> split_from(state, t, ifs, i).current
            == Some(live_field(pieces.last())),
    decreases pieces.len(),
{
    if pieces.len() > 0 {
        let d = delimiters[0];
        let p = pieces[0];
        let rest = pieces.skip(1);
        let more = delimiters.skip(1);
        let tail = delimited(rest, more);
        lemma_stands(t, i, d, p + tail);
        let start = i + d.len();
        lemma_stands(t, start, p, tail);
        let end = start + p.len();
        lemma_splits_rest(ifs, pieces, delimiters);
        assert(is_delimiter(ifs, d));
        assert(unsplit(p, ifs));
        if rest.len() > 0 {
            let e = more[0];
            assert(e == delimiters[1]);
            assert(is_delimiter(ifs, delimiters[1]));
            lemma_delimiter_first(ifs, e);
            assert(tail == e + (rest[0] + delimited(rest.skip(1), more.skip(1))));
            assert(t[end + 0] == tail[0]);
            assert(tail[0] == e[0]);
        }
        if p.len() > 0 {
            assert(t[start + 0] == p[0]);
            assert(!ifs.contains(p[0]));
        }
        lemma_delimiter(t, ifs, i, d);
        lemma_content_run(t, ifs, start, p);
        lemma_live(p);
        let hard = is_hard_delimiter(ifs, d);
        let closed = state.closed_by(hard);
        if start == t.len() {
            assert(rest.len() == 0);
            assert(piece_fields(pieces) =~= Seq::<FieldView>::empty());
            assert(closed.done + piece_fields(pieces) =~= closed.done);
        } else {
            let next = closed.growing(live_field(p));
            assert(t.subrange(start, end) =~= p) by {
                assert forall|k: int| 0 <= k < p.len() implies t[start + k] == #[trigger] p[k] by {
                }
            }
            assert(split_from(state, t, ifs, i) == split_from(next, t, ifs, end));
            lemma_delimited(next, t, ifs, end, rest, more);
            if rest.len() == 0 {
                assert(p.len() > 0);
                assert(closed.done.push(live_field(p)) =~= closed.done + piece_fields(pieces));
            } else {
                assert(rest.last() == pieces.last());
                assert(next.closed_by(is_hard_delimiter(ifs, more[0])).done == closed.done.push(
                    live_field(p),
                ));
                assert(closed.done.push(live_field(p)) + piece_fields(rest) =~= closed.done
                    + piece_fields(pieces));
            }
        }
    }
}

proof fn lemma_first_piece(state: Splitting, t: Seq<char>, ifs: Seq<char>, p: Seq<char>)
    requires
        stands(t, 0, p),
        p.len() > 0,
        unsplit(p, ifs),
        p.len() < t.len() ==> ifs.contains(t[p.len() as int]),
    ensures
        split_from(state, t, ifs, 0) == split_from(
            state.growing(state.open_field().with_live(p)),
            t,
            ifs,
            p.len() as int,
        ),
{
    assert(t[0int + 0] == p[0]);
    assert(!ifs.contains(p[0]));
    let none = Seq::<char>::empty();
    lemma_soft_run(t, ifs, 0, none);
    lemma_content_run(t, ifs, 0, p);
    assert(t.subrange(0, p.len() as int) =~= p) by {
        assert forall|k: int| 0 <= k < p.len() implies t[k] == #[trigger] p[k] by {
            assert(t[0int + k] == p[k]);
        }
    }
}

proof fn lemma_one_expansion(text: Seq<char>, ifs: Seq<char>)
    ensures
        fields_of(seq![SegView::Expanded(text)], ifs) == split_from(
            Splitting { done: Seq::empty(), current: None },
            text,
            ifs,
            0,
        ).all(),
{
    let segs = seq![SegView::Expanded(text)];
    assert(segs.drop_last() =~= Seq::<SegView>::empty());
    assert(merged(segs.drop_last()) == Seq::<SegView>::empty());
    assert(merged(segs) =~= segs);
    assert(after_segments(segs.drop_last(), ifs) == Splitting { done: Seq::empty(), current: None });
}

/// An unquoted expansion splits at its delimiters, and nowhere else: `first`
/// and the pieces after it are the fields, in order. Nothing before the first
/// delimiter is a field only where that delimiter is not white space alone, and
/// nothing after the last one never is.
pub proof fn law_expansions_split_at_delimiters(
    first: Seq<char>,
    pieces: Seq<Seq<char>>,
    delimiters: Seq<Seq<char>>,
    ifs: Seq<char>,
)
    requires
        unsplit(first, ifs),
        splits_so(ifs, pieces, delimiters),
    ensures
        fields_of(seq![SegView::Expanded(first + delimited(pieces, delimiters))], ifs) == (
        if first.len() > 0 || (pieces.len() > 0 && is_hard_delimiter(ifs, delimiters[0])) {
            seq![live_field(first)]
        } else {
            Seq::empty()
        }) + piece_fields(pieces),
{
    let tail = delimited(pieces, delimiters);
    let t = first + tail;
    let n = first.len() as int;
    let start = Splitting { done: Seq::<FieldView>::empty(), current: None };
    lemma_one_expansion(t, ifs);
    assert(stands(t, 0, first));
    assert(stands(t, n, tail));
    lemma_live(first);
    if pieces.len() > 0 {
        assert(is_delimiter(ifs, delimiters[0]));
        lemma_delimiter_first(ifs, delimiters[0]);
        assert(tail[0] == delimiters[0][0]);
        assert(t[n + 0] == tail[0]);
    } else {
        assert(piece_fields(pieces) =~= Seq::<FieldView>::empty());
    }
    if n > 0 {
        let grown = start.growing(live_field(first));
        lemma_first_piece(start, t, ifs, first);
        lemma_delimited(grown, t, ifs, n, pieces, delimiters);
        assert(start.done.push(live_field(first)) =~= seq![live_field(first)]);
        if pieces.len() == 0 {
            assert(seq![live_field(first)] + piece_fields(pieces) =~= seq![live_field(first)]);
        }
    } else {
        lemma_delimited(start, t, ifs, 0, pieces, delimiters);
        assert(first =~= Seq::<char>::empty());
        assert(live_field(first) == empty_field()) by {
            assert(!has_meta(first));
        }
        if pieces.len() > 0 {
            assert(start.done.push(empty_field()) =~= seq![live_field(first)]);
        } else {
            assert(start.done + piece_fields(pieces) =~= start.done);
        }
    }
}

/// The text before the first delimiter of an expansion joins the text before
/// the expansion, and the text after the last one joins the text after it: of
/// `a$xb` there are two fields where `$x` has one delimiter.
pub proof fn law_expansions_join_their_neighbours(
    a: Seq<char>,
    p: Seq<char>,
    d: Seq<char>,
    q: Seq<char>,
    b: Seq<char>,
    ifs: Seq<char>,
)
    requires
        unsplit(p, ifs),
        is_delimiter(ifs, d),
        unsplit(q, ifs),
    ensures
        ({
            let fields = fields_of(
                seq![SegView::Lit(a), SegView::Expanded(p + d + q), SegView::Lit(b)],
                ifs,
            );
            &&& fields.len() == 2
            &&& fields[0].text == a + p
            &&& fields[1].text == q + b
            &&& fields[0].has_meta == (has_meta(a) || has_meta(p))
            &&& fields[1].has_meta == (has_meta(q) || has_meta(b))
        }),
{
    let t = p + d + q;
    let one = seq![SegView::Lit(a)];
    let two = seq![SegView::Lit(a), SegView::Expanded(t)];
    let all = seq![SegView::Lit(a), SegView::Expanded(t), SegView::Lit(b)];
    let none = Seq::<SegView>::empty();
    assert(all.drop_last() =~= two);
    assert(two.drop_last() =~= one);
    assert(one.drop_last() =~= none);
    assert(merged(none) == none);
    assert(merged(one) =~= one);
    assert(merged(two) =~= two);
    assert(merged(all) =~= all);
    let empty = Splitting { done: Seq::<FieldView>::empty(), current: None };
    assert(after_segments(none, ifs) == empty);
    let start = empty.growing(empty_field().with_live(a));
    assert(after_segments(one, ifs) == start);
    lemma_live(a);
    let pieces = seq![q];
    let delimiters = seq![d];
    let gone = Seq::<Seq<char>>::empty();
    assert(pieces.skip(1) =~= gone);
    assert(delimited(pieces.skip(1), delimiters.skip(1)) =~= Seq::<char>::empty());
    assert(delimited(pieces, delimiters) =~= d + q);
    assert(stands(t, p.len() as int, d + q));
    assert(stands(t, 0, p));
    lemma_delimiter_first(ifs, d);
    assert(t[p.len() as int] == d[0]);
    let state = if p.len() > 0 {
        start.growing(start.open_field().with_live(p))
    } else {
        start
    };
    if p.len() > 0 {
        lemma_first_piece(start, t, ifs, p);
    }
    assert(splits_so(ifs, pieces, delimiters));
    lemma_delimited(state, t, ifs, p.len() as int, pieces, delimiters);
    let after = split_from(state, t, ifs, p.len() as int);
    assert(after_segments(two, ifs) == after);
    let head = state.current->0;
    if p.len() == 0 {
        assert(a + p =~= a);
        assert(!has_meta(p));
    }
    assert(head.text == a + p);
    assert(state.closed_by(is_hard_delimiter(ifs, d)).done =~= seq![head]);
    if q.len() == 0 {
        assert(piece_fields(pieces) =~= Seq::<FieldView>::empty());
        assert(after.done =~= seq![head]);
        assert(after.current is None);
        assert(!has_meta(q));
        assert(q + b =~= b);
        lemma_live(b);
    } else {
        assert(piece_fields(pieces) =~= seq![live_field(q)]);
        assert(after.current == Some(live_field(q)));
        assert(after.all() == after.done.push(live_field(q)));
        assert(after.all() =~= seq![head, live_field(q)]);
        assert(after.done =~= after.all().drop_last());
        assert(after.done =~= seq![head]);
    }
}

/// Without `IFS` blanks, tabs and newlines split; with it its characters do, and
/// with an empty one nothing does.
pub proof fn law_separators(vars: Vars, c: char, text: Seq<char>)
    ensures
        ({
            let name = seq!['I', 'F', 'S'];
            &&& !vars.contains_key(name) ==> (separators(vars).contains(c) <==> c == ' ' || c
                == '\t' || c == '\n')
            &&& vars.contains_key(name) ==> separators(vars) == vars[name]
        }),
        text.len() > 0 ==> fields_of(seq![SegView::Expanded(text)], Seq::empty()) == seq![
            live_field(text),
        ],
{
    let usual = seq![' ', '\t', '\n'];
    assert(usual[0] == ' ' && usual[1] == '\t' && usual[2] == '\n');
    if text.len() > 0 {
        let none = Seq::<Seq<char>>::empty();
        let ifs = Seq::<char>::empty();
        assert(splits_so(ifs, none, none));
        law_expansions_split_at_delimiters(text, none, none, ifs);
        assert(text + delimited(none, none) =~= text);
        assert(seq![live_field(text)] + piece_fields(none) =~= seq![live_field(text)]);
    }
}

/// How each kind of part takes part in splitting, for a word of that part
/// alone: an unquoted variable, parameter, formula or output splits as an
/// expansion of its text; a quoted one, a quoted literal and `~` are one field
/// that is no pattern; a substitution that was not run, and `~` without a home
/// directory, leave nothing.
pub proof fn law_parts_split_by_quoting(text: Seq<char>, vars: Vars, last_status: i32, ifs: Seq<char>)
    ensures
        ({
            let fields = |part: PartView| fields_of(segments(seq![part], vars, last_status), ifs);
            let value = |part: PartView| expanded_word(seq![part], vars, last_status);
            let split = |part: PartView|
                fields(part) == fields_of(seq![SegView::Expanded(value(part))], ifs);
            let whole = |part: PartView|
                {
                    &&& fields(part).len() == 1
                    &&& fields(part)[0].text == value(part)
                    &&& fields(part)[0].pattern == escaped(value(part))
                    &&& !fields(part)[0].has_meta
                };
            &&& split(PartView::Var(text))
            &&& split(PartView::Param(text))
            &&& split(PartView::Arith(text))
            &&& split(PartView::SubstOut(text))
            &&& whole(PartView::QLit(text))
            &&& whole(PartView::QVar(text))
            &&& whole(PartView::QParam(text))
            &&& whole(PartView::QArith(text))
            &&& vars.contains_key(seq!['H', 'O', 'M', 'E']) ==> whole(PartView::Tilde)
            &&& !vars.contains_key(seq!['H', 'O', 'M', 'E']) ==> fields(PartView::Tilde) == Seq::<
                FieldView,
            >::empty()
            &&& fields(PartView::Subst(text)) == Seq::<FieldView>::empty()
            &&& fields(PartView::QSubst(text)) == Seq::<FieldView>::empty()
        }),
{
    lemma_part_fields(PartView::Var(text), vars, last_status, ifs);
    lemma_part_fields(PartView::Param(text), vars, last_status, ifs);
    lemma_part_fields(PartView::Arith(text), vars, last_status, ifs);
    lemma_part_fields(PartView::SubstOut(text), vars, last_status, ifs);
    lemma_part_fields(PartView::QLit(text), vars, last_status, ifs);
    lemma_part_fields(PartView::QVar(text), vars, last_status, ifs);
    lemma_part_fields(PartView::QParam(text), vars, last_status, ifs);
    lemma_part_fields(PartView::QArith(text), vars, last_status, ifs);
    lemma_part_fields(PartView::Tilde, vars, last_status, ifs);
    lemma_part_fields(PartView::Subst(text), vars, last_status, ifs);
    lemma_part_fields(PartView::QSubst(text), vars, last_status, ifs);
}

proof fn lemma_part_fields(part: PartView, vars: Vars, last_status: i32, ifs: Seq<char>)
    ensures
        ({
            let segs = segments(seq![part], vars, last_status);
            let value = expanded_word(seq![part], vars, last_status);
            match part_segment(part, vars, last_status) {
                None => fields_of(segs, ifs) == Seq::<FieldView>::empty(),
                Some(SegView::Expanded(_)) => segs == seq![SegView::Expanded(value)],
                Some(SegView::Quoted(text)) => value == text && fields_of(segs, ifs) == seq![
                    FieldView { text, pattern: escaped(text), has_meta: false },
                ],
                Some(SegView::Lit(text)) => segs == seq![SegView::Lit(text)],
            }
        }),
{
    let parts = seq![part];
    let none = Seq::<SegView>::empty();
    assert(parts.drop_last() =~= Seq::<PartView>::empty());
    assert(segments(parts.drop_last(), vars, last_status) == none);
    assert(merged(none) == none);
    assert(after_segments(none, ifs) == Splitting { done: Seq::empty(), current: None });
    if let Some(seg) = part_segment(part, vars, last_status) {
        let segs = seq![seg];
        assert(segments(parts, vars, last_status) =~= segs);
        assert(segs.drop_last() =~= none);
        assert(segments_text(segs.drop_last()) == Seq::<char>::empty());
        assert(segments_text(segs) =~= seg.text());
        if let SegView::Quoted(text) = seg {
            assert(merged(segs) =~= segs);
            assert(Seq::<char>::empty() + text =~= text);
            assert(Seq::<char>::empty() + escaped(text) =~= escaped(text));
            let field = FieldView { text, pattern: escaped(text), has_meta: false };
            assert(empty_field().with_quoted(text) == field);
            let start = Splitting { done: Seq::<FieldView>::empty(), current: None };
            assert(after_segments(segs, ifs) == start.growing(field));
            assert(fields_of(segs, ifs) =~= seq![field]);
        }
    }
}

/// Quoted text joins the ends of an expansion as literal text does, and never
/// makes a pattern of the field.
pub proof fn law_expansions_join_quoted_neighbours(
    a: Seq<char>,
    p: Seq<char>,
    d: Seq<char>,
    q: Seq<char>,
    b: Seq<char>,
    ifs: Seq<char>,
)
    requires
        unsplit(p, ifs),
        is_delimiter(ifs, d),
        unsplit(q, ifs),
    ensures
        ({
            let fields = fields_of(
                seq![SegView::Quoted(a), SegView::Expanded(p + d + q), SegView::Quoted(b)],
                ifs,
            );
            &&& fields.len() == 2
            &&& fields[0].text == a + p
            &&& fields[0].pattern == escaped(a) + p
            &&& fields[0].has_meta == has_meta(p)
            &&& fields[1].text == q + b
            &&& fields[1].pattern == q + escaped(b)
            &&& fields[1].has_meta == has_meta(q)
        }),
{
    let t = p + d + q;
    let one = seq![SegView::Quoted(a)];
    let two = seq![SegView::Quoted(a), SegView::Expanded(t)];
    let all = seq![SegView::Quoted(a), SegView::Expanded(t), SegView::Quoted(b)];
    let none = Seq::<SegView>::empty();
    assert(all.drop_last() =~= two);
    assert(two.drop_last() =~= one);
    assert(one.drop_last() =~= none);
    assert(merged(none) == none);
    assert(merged(one) =~= one);
    assert(merged(two) =~= two);
    assert(merged(all) =~= all);
    let empty = Splitting { done: Seq::<FieldView>::empty(), current: None };
    assert(after_segments(none, ifs) == empty);
    let first = empty_field().with_quoted(a);
    let start = empty.growing(first);
    assert(after_segments(one, ifs) == start);
    assert(first.text =~= a);
    assert(first.pattern =~= escaped(a));
    let pieces = seq![q];
    let delimiters = seq![d];
    let gone = Seq::<Seq<char>>::empty();
    assert(pieces.skip(1) =~= gone);
    assert(delimited(pieces.skip(1), delimiters.skip(1)) =~= Seq::<char>::empty());
    assert(delimited(pieces, delimiters) =~= d + q);
    assert(stands(t, p.len() as int, d + q));
    assert(stands(t, 0, p));
    lemma_delimiter_first(ifs, d);
    assert(t[p.len() as int] == d[0]);
    let state = if p.len() > 0 {
        start.growing(start.open_field().with_live(p))
    } else {
        start
    };
    if p.len() > 0 {
        lemma_first_piece(start, t, ifs, p);
    }
    assert(splits_so(ifs, pieces, delimiters));
    lemma_delimited(state, t, ifs, p.len() as int, pieces, delimiters);
    let after = split_from(state, t, ifs, p.len() as int);
    assert(after_segments(two, ifs) == after);
    let head = state.current->0;
    if p.len() == 0 {
        assert(a + p =~= a);
        assert(escaped(a) + p =~= escaped(a));
        assert(!has_meta(p));
    }
    assert(state.closed_by(is_hard_delimiter(ifs, d)).done =~= seq![head]);
    if q.len() == 0 {
        assert(piece_fields(pieces) =~= Seq::<FieldView>::empty());
        assert(after.done =~= seq![head]);
        assert(after.current is None);
        assert(!has_meta(q));
        let last = empty_field().with_quoted(b);
        assert(last.text =~= q + b);
        assert(last.pattern =~= q + escaped(b));
    } else {
        assert(piece_fields(pieces) =~= seq![live_field(q)]);
        assert(after.current == Some(live_field(q)));
        assert(after.all() == after.done.push(live_field(q)));
        assert(after.all() =~= seq![head, live_field(q)]);
        assert(after.done =~= after.all().drop_last());
        assert(after.done =~= seq![head]);
    }
}

/// The fields of a command are those of its words in order; those of a word are
/// those of the words that its braces make, in order, split at the separators;
/// and a word without parts is one empty field.
pub proof fn law_fields_in_order(
    argv: Seq<Seq<PartView>>,
    word: Seq<PartView>,
    words: Seq<Seq<PartView>>,
    vars: Vars,
    last_status: i32,
)
    ensures
        argv_fields(argv.push(word), vars, last_status) == argv_fields(argv, vars, last_status)
            + word_fields(word, vars, last_status),
        argv_fields(Seq::empty(), vars, last_status) == Seq::<FieldView>::empty(),
        word_fields(Seq::empty(), vars, last_status) == seq![live_field(Seq::empty())],
        word.len() > 0 ==> word_fields(word, vars, last_status) == all_fields(
            variants(word),
            vars,
            last_status,
        ),
        all_fields(words.push(word), vars, last_status) == all_fields(words, vars, last_status)
            + fields_of(segments(word, vars, last_status), separators(vars)),
        all_fields(Seq::empty(), vars, last_status) == Seq::<FieldView>::empty(),
{
    assert(argv.push(word).drop_last() =~= argv);
    assert(words.push(word).drop_last() =~= words);
    let none = Seq::<char>::empty();
    assert(!has_meta(none));
    assert(live_field(none) == empty_field());
}

/// `*`, `?` and `[` make a pattern of a text, and no other character does.
pub proof fn law_pattern_characters(text: Seq<char>, k: int)
    ensures
        0 <= k < text.len() && (text[k] == '*' || text[k] == '?' || text[k] == '[') ==> has_meta(text),
        (forall|j: int|
            0 <= j < text.len() ==> text[j] != '*' && text[j] != '?' && #[trigger] text[j] != '[')
            ==> !has_meta(text),
{
    if 0 <= k < text.len() && (text[k] == '*' || text[k] == '?' || text[k] == '[') {
        assert(is_meta(text[k]));
    }
    if has_meta(text) {
        let i = choose|i: int| 0 <= i < text.len() && is_meta(#[trigger] text[i]);
        assert(text[i] == '*' || text[i] == '?' || text[i] == '[');
    }
}

/// In a pattern a `^` right behind `[` becomes `!`, and nothing else changes.
pub proof fn law_negated_classes(pattern: Seq<char>, k: int)
    requires
        0 <= k < pattern.len(),
    ensures
        class_pattern(pattern).len() == pattern.len(),
        k > 0 && pattern[k - 1] == '[' && pattern[k] == '^' ==> class_pattern(pattern)[k] == '!',
        k == 0 || pattern[k - 1] != '[' || pattern[k] != '^' ==> class_pattern(pattern)[k]
            == pattern[k],
{
}

/// The paths that could be read, without a `./` in front.
pub proof fn law_readable_paths(
    paths: Seq<Option<Seq<char>>>,
    path: Seq<char>,
)
    ensures
        readable(paths.push(Some(seq!['.', '/'] + path))) == readable(paths).push(path),
        !(path.len() >= 2 && path[0] == '.' && path[1] == '/') ==> readable(paths.push(Some(path)))
            == readable(paths).push(path),
        readable(paths.push(None)) == readable(paths),
        readable(Seq::empty()) == Seq::<Seq<char>>::empty(),
{
    let here = seq!['.', '/'] + path;
    assert(here.skip(2) =~= path);
    assert(paths.push(Some(here)).drop_last() =~= paths);
    assert(paths.push(Some(path)).drop_last() =~= paths);
    assert(paths.push(None).drop_last() =~= paths);
}

/// A field that is a pattern becomes the paths that were found, in alphabetical
/// order; one that is none, or for which nothing was found, stays as it is.
pub proof fn law_globbed_fields(
    field: FieldView,
    paths: Seq<Option<Seq<char>>>,
    fields: Seq<FieldView>,
    founds: Seq<Found>,
)
    ensures
        field_texts(field, None) == seq![field.text],
        !field.has_meta ==> field_texts(field, Some(paths)) == seq![field.text],
        readable(paths).len() == 0 ==> field_texts(field, Some(paths)) == seq![field.text],
        field.has_meta && readable(paths).len() > 0 ==> {
            &&& in_order(field_texts(field, Some(paths)))
            &&& field_texts(field, Some(paths)).to_multiset() == readable(paths).to_multiset()
        },
        founds.len() == fields.len() ==> globbed(fields.push(field), founds.push(Some(paths)))
            == globbed(fields, founds) + field_texts(field, Some(paths)),
        globbed(Seq::empty(), Seq::empty()) == Seq::<Seq<char>>::empty(),
{
    law_sorted(readable(paths));
    assert(fields.push(field).drop_last() =~= fields);
    assert(founds.push(Some(paths)).drop_last() =~= founds);
}

} // verus!
