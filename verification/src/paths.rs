//! The names that a path is made of, and the directory shown in the prompt.

use vstd::prelude::*;

use crate::prompt::{component_end, components, components_from, dir_text, path_from};

verus! {

/// A name in a path: no slash in it, and not `.` alone.
pub open spec fn is_path_name(name: Seq<char>) -> bool {
    &&& name.len() > 0
    &&& forall|k: int| 0 <= k < name.len() ==> name[k] != '/'
    &&& name != seq!['.']
}

/// Slashes, with a `.` between two of them here and there or after the last one.
pub open spec fn is_gap(gap: Seq<char>) -> bool {
    &&& gap.len() > 0
    &&& gap[0] == '/'
    &&& forall|k: int|
        0 <= k < gap.len() ==> #[trigger] gap[k] == '/' || (gap[k] == '.' && gap[k - 1] == '/' && (k
            + 1 < gap.len() ==> gap[k + 1] == '/'))
}

/// The names, each with its gap before it.
pub open spec fn spelled(names: Seq<Seq<char>>, gaps: Seq<Seq<char>>) -> Seq<char>
    decreases names.len(),
{
    if names.len() == 0 {
        Seq::empty()
    } else {
        gaps[0] + (names[0] + spelled(names.skip(1), gaps.skip(1)))
    }
}

/// Names that are names, and gaps that end with a slash before each of them.
pub open spec fn spells(names: Seq<Seq<char>>, gaps: Seq<Seq<char>>) -> bool {
    &&& names.len() == gaps.len()
    &&& forall|k: int| 0 <= k < names.len() ==> is_path_name(#[trigger] names[k])
    &&& forall|k: int|
        0 <= k < names.len() ==> is_gap(#[trigger] gaps[k]) && gaps[k].last() == '/'
}

/// `w` stands in `t` at `off`.
spec fn stands(t: Seq<char>, off: int, w: Seq<char>) -> bool {
    &&& 0 <= off
    &&& off + w.len() <= t.len()
    &&& forall|k: int| 0 <= k < w.len() ==> t[off + k] == #[trigger] w[k]
}

proof fn lemma_stands(t: Seq<char>, off: int, a: Seq<char>, b: Seq<char>)
    requires
        stands(t, off, a + b),
    ensures
        stands(t, off, a),
        stands(t, off + a.len(), b),
{
    let w = a + b;
    assert forall|k: int| 0 <= k < a.len() implies t[off + k] == #[trigger] a[k] by {
        assert(t[off + k] == w[k]);
    }
    assert forall|k: int| 0 <= k < b.len() implies t[off + a.len() + k] == #[trigger] b[k] by {
        assert(t[off + (a.len() + k)] == w[a.len() + k]);
    }
}

proof fn lemma_component(path: Seq<char>, i: int, name: Seq<char>)
    requires
        stands(path, i, name),
        forall|k: int| 0 <= k < name.len() ==> name[k] != '/',
        i + name.len() < path.len() ==> path[i + name.len()] == '/',
    ensures
        component_end(path, i) == i + name.len(),
    decreases name.len(),
{
    if name.len() > 0 {
        assert(path[i + 0] == name[0]);
        let rest = name.skip(1);
        assert(stands(path, i + 1, rest)) by {
            assert forall|k: int| 0 <= k < rest.len() implies path[i + 1 + k] == #[trigger] rest[k] by {
                assert(path[i + (k + 1)] == name[k + 1]);
            }
        }
        assert forall|k: int| 0 <= k < rest.len() implies rest[k] != '/' by {
            assert(name[k + 1] != '/');
        }
        lemma_component(path, i + 1, rest);
    }
}

/// From inside a gap nothing comes before its end.
proof fn lemma_gap(path: Seq<char>, i: int, gap: Seq<char>, j: int)
    requires
        stands(path, i, gap),
        is_gap(gap),
        gap.last() == '/' || i + gap.len() == path.len(),
        0 <= j <= gap.len(),
        i + j > 0,
    ensures
        components_from(path, i + j) == components_from(path, i + gap.len()),
    decreases gap.len() - j,
{
    if j < gap.len() {
        assert(path[i + j] == gap[j]);
        if gap[j] != '/' {
            let dot = seq!['.'];
            assert(gap[j] == '.');
            if j + 1 < gap.len() {
                assert(path[i + (j + 1)] == gap[j + 1]);
            }
            assert(stands(path, i + j, dot)) by {
                assert forall|k: int| 0 <= k < dot.len() implies path[i + j + k] == #[trigger] dot[k] by {}
            }
            lemma_component(path, i + j, dot);
            assert(path.subrange(i + j, i + j + 1) =~= dot);
        }
        lemma_gap(path, i, gap, j + 1);
    }
}

proof fn lemma_spells_rest(names: Seq<Seq<char>>, gaps: Seq<Seq<char>>)
    requires
        spells(names, gaps),
        names.len() > 0,
    ensures
        spells(names.skip(1), gaps.skip(1)),
{
    let n = names.skip(1);
    let g = gaps.skip(1);
    assert forall|k: int| 0 <= k < n.len() implies is_path_name(#[trigger] n[k]) by {
        assert(is_path_name(names[k + 1]));
    }
    assert forall|k: int| 0 <= k < n.len() implies is_gap(#[trigger] g[k]) && g[k].last() == '/' by {
        assert(is_gap(gaps[k + 1]));
    }
}

/// The spans of the names that stand at `i`; the root comes before them where
/// that is the start.
proof fn lemma_names(path: Seq<char>, i: int, names: Seq<Seq<char>>, gaps: Seq<Seq<char>>) -> (spans:
    Seq<(int, int)>)
    requires
        spells(names, gaps),
        stands(path, i, spelled(names, gaps)),
        i > 0 || names.len() > 0,
        i + spelled(names, gaps).len() < path.len() ==> path[i + spelled(names, gaps).len()] == '/',
    ensures
        components_from(path, i) == (if i == 0 {
            seq![(0int, 1int)]
        } else {
            Seq::empty()
        }) + spans + components_from(path, i + spelled(names, gaps).len()),
        spans.len() == names.len(),
        forall|k: int|
            0 <= k < names.len() ==> path.subrange((#[trigger] spans[k]).0, spans[k].1) == names[k],
        names.len() > 0 ==> spans.last().1 == i + spelled(names, gaps).len(),
        names.len() > 0 ==> spans[0].0 == i + gaps[0].len(),
    decreases names.len(),
{
    let none = Seq::<(int, int)>::empty();
    if names.len() == 0 {
        assert(none + none + components_from(path, i) =~= components_from(path, i));
        none
    } else {
        let gap = gaps[0];
        let name = names[0];
        let rest = names.skip(1);
        let more = gaps.skip(1);
        let tail = spelled(rest, more);
        lemma_stands(path, i, gap, name + tail);
        let start = i + gap.len();
        lemma_stands(path, start, name, tail);
        let end = start + name.len();
        lemma_spells_rest(names, gaps);
        assert(is_path_name(names[0]));
        assert(is_gap(gaps[0]));
        if rest.len() > 0 {
            assert(more[0] == gaps[1]);
            assert(is_gap(gaps[1]));
            assert(tail == more[0] + (rest[0] + spelled(rest.skip(1), more.skip(1))));
            assert(path[end + 0] == tail[0]);
        }
        assert(path[start + 0] == name[0]);
        lemma_component(path, start, name);
        assert(path.subrange(start, end) =~= name) by {
            assert forall|k: int| 0 <= k < name.len() implies path[start + k] == #[trigger] name[k] by {}
        }
        if i == 0 {
            assert(path[0int + 0] == gap[0]);
            lemma_gap(path, 0, gap, 1);
        } else {
            lemma_gap(path, i, gap, 0);
        }
        let root = if i == 0 {
            seq![(0int, 1int)]
        } else {
            none
        };
        let others = lemma_names(path, end, rest, more);
        assert(none + others =~= others);
        let spans = seq![(start, end)] + others;
        assert(components_from(path, start) == seq![(start, end)] + components_from(path, end));
        let last = components_from(path, end + tail.len());
        assert(seq![(start, end)] + (others + last) =~= spans + last);
        assert(none + (spans + last) =~= spans + last);
        assert(root + (spans + last) =~= root + spans + last);
        assert forall|k: int| 0 <= k < names.len() implies path.subrange(
            (#[trigger] spans[k]).0,
            spans[k].1,
        ) == names[k] by {
            if k > 0 {
                assert(spans[k] == others[k - 1]);
                assert(names[k] == rest[k - 1]);
            }
        }
        if rest.len() > 0 {
            assert(spans.last() == others.last());
        }
        spans
    }
}

proof fn lemma_ending(path: Seq<char>, i: int, ending: Seq<char>)
    requires
        stands(path, i, ending),
        i + ending.len() == path.len(),
        ending.len() > 0 ==> is_gap(ending),
        i > 0,
    ensures
        components_from(path, i) == Seq::<(int, int)>::empty(),
{
    if ending.len() > 0 {
        lemma_gap(path, i, ending, 0);
    }
}

/// The components of a path are the root, where it starts with a slash, and its
/// names: more slashes, a `.` between slashes and what is behind the last name
/// stand for nothing.
pub proof fn law_components_are_the_names(
    first: Seq<char>,
    names: Seq<Seq<char>>,
    gaps: Seq<Seq<char>>,
    ending: Seq<char>,
)
    requires
        spells(names, gaps),
        ending.len() > 0 ==> is_gap(ending),
        first.len() > 0,
        forall|k: int| 0 <= k < first.len() ==> first[k] != '/',
    ensures
        components(first + spelled(names, gaps) + ending) == seq![first] + names,
        names.len() > 0 ==> components(spelled(names, gaps) + ending) == seq![seq!['/']] + names,
        ending.len() > 0 ==> components(ending) == seq![seq!['/']],
{
    let tail = spelled(names, gaps);
    let path = first + tail + ending;
    let n = first.len() as int;
    assert(stands(path, 0, first));
    assert(stands(path, n, tail));
    assert(stands(path, n + tail.len(), ending));
    if names.len() > 0 {
        assert(is_gap(gaps[0]));
        assert(tail[0] == '/');
        assert(path[n] == tail[0]);
    } else if ending.len() > 0 {
        assert(path[n] == ending[0]);
    }
    if ending.len() > 0 {
        assert(path[n + tail.len()] == ending[0]);
    }
    assert(path[0] == first[0]);
    lemma_component(path, 0, first);
    let spans = lemma_names(path, n, names, gaps);
    lemma_ending(path, n + tail.len(), ending);
    let all = components_from(path, 0);
    assert(all =~= seq![(0int, n)] + spans);
    assert(path.subrange(0, n) =~= first);
    assert(components(path) =~= seq![first] + names) by {
        assert forall|k: int| 0 <= k < all.len() implies #[trigger] components(path)[k] == (seq![first]
            + names)[k] by {
            if k > 0 {
                assert(all[k] == spans[k - 1]);
                assert(path.subrange(spans[k - 1].0, spans[k - 1].1) == names[k - 1]);
            }
        }
    }
    if names.len() > 0 {
        lemma_rooted(names, gaps, ending);
    }
    if ending.len() > 0 {
        assert(stands(ending, 0, ending));
        lemma_gap(ending, 0, ending, 1);
        let root = components_from(ending, 0);
        assert(root =~= seq![(0int, 1int)]);
        assert(ending.subrange(0, 1) =~= seq!['/']);
        assert(components(ending) =~= seq![seq!['/']]);
    }
}

proof fn lemma_rooted(names: Seq<Seq<char>>, gaps: Seq<Seq<char>>, ending: Seq<char>)
    requires
        spells(names, gaps),
        ending.len() > 0 ==> is_gap(ending),
        names.len() > 0,
    ensures
        components(spelled(names, gaps) + ending) == seq![seq!['/']] + names,
{
    let tail = spelled(names, gaps);
    let path = tail + ending;
    assert(stands(path, 0, tail));
    assert(stands(path, tail.len() as int, ending));
    assert(is_gap(gaps[0]));
    assert(is_path_name(names[0]));
    assert(tail.len() > 0);
    assert(tail[0] == '/');
    assert(path[0] == '/');
    if ending.len() > 0 {
        assert(path[tail.len() as int] == ending[0]);
    }
    let spans = lemma_names(path, 0, names, gaps);
    lemma_ending(path, tail.len() as int, ending);
    let all = components_from(path, 0);
    assert(all =~= seq![(0int, 1int)] + spans);
    assert(path.subrange(0, 1) =~= seq!['/']);
    assert(components(path) =~= seq![seq!['/']] + names) by {
        assert forall|k: int| 0 <= k < all.len() implies #[trigger] components(path)[k] == (seq![
            seq!['/'],
        ] + names)[k] by {
            if k > 0 {
                assert(all[k] == spans[k - 1]);
                assert(path.subrange(spans[k - 1].0, spans[k - 1].1) == names[k - 1]);
            }
        }
    }
}

/// `count` single slashes.
pub open spec fn slashes(count: nat) -> Seq<Seq<char>> {
    Seq::new(count, |k: int| seq!['/'])
}

/// The path from the root over the names.
pub open spec fn absolute(names: Seq<Seq<char>>) -> Seq<char> {
    spelled(names, slashes(names.len()))
}

/// All of them are names.
pub open spec fn all_names(names: Seq<Seq<char>>) -> bool {
    forall|k: int| 0 <= k < names.len() ==> is_path_name(#[trigger] names[k])
}

proof fn lemma_absolute(names: Seq<Seq<char>>)
    requires
        all_names(names),
    ensures
        spells(names, slashes(names.len())),
        names.len() > 0 ==> components(absolute(names)) == seq![seq!['/']] + names,
        names.len() > 0 ==> absolute(names) == seq!['/'] + names[0] + absolute(names.skip(1)),
{
    let gaps = slashes(names.len());
    let none = Seq::<char>::empty();
    assert(spells(names, gaps)) by {
        assert forall|k: int| 0 <= k < names.len() implies is_gap(#[trigger] gaps[k])
            && gaps[k].last() == '/' by {
            let gap = gaps[k];
            assert(gap =~= seq!['/']);
        }
    }
    if names.len() > 0 {
        lemma_rooted(names, gaps, none);
        assert(absolute(names) + none =~= absolute(names));
        assert(gaps.skip(1) =~= slashes(names.skip(1).len()));
        assert(gaps[0] =~= seq!['/']);
        assert(seq!['/'] + (names[0] + absolute(names.skip(1))) =~= seq!['/'] + names[0] + absolute(
            names.skip(1),
        ));
    }
}

proof fn lemma_absolute_splits(a: Seq<Seq<char>>, b: Seq<Seq<char>>)
    requires
        all_names(a),
        all_names(b),
    ensures
        absolute(a + b) == absolute(a) + absolute(b),
        all_names(a + b),
    decreases a.len(),
{
    let all = a + b;
    assert(all_names(all)) by {
        assert forall|k: int| 0 <= k < all.len() implies is_path_name(#[trigger] all[k]) by {
            if k < a.len() {
                assert(all[k] == a[k]);
            } else {
                assert(all[k] == b[k - a.len()]);
            }
        }
    }
    if a.len() == 0 {
        assert(all =~= b);
        assert(absolute(a) =~= Seq::<char>::empty());
        assert(absolute(a) + absolute(b) =~= absolute(b));
    } else {
        lemma_absolute(a);
        lemma_absolute(all);
        assert(all_names(a.skip(1))) by {
            assert forall|k: int| 0 <= k < a.skip(1).len() implies is_path_name(
                #[trigger] a.skip(1)[k],
            ) by {
                assert(is_path_name(a[k + 1]));
            }
        }
        lemma_absolute_splits(a.skip(1), b);
        assert(all.skip(1) =~= a.skip(1) + b);
        assert(seq!['/'] + a[0] + (absolute(a.skip(1)) + absolute(b)) =~= absolute(a) + absolute(b));
    }
}

/// The home directory shows as `~`, a directory below it as `~` and the rest of
/// its path, and any other directory as it is.
pub proof fn law_home_is_a_tilde(
    home: Seq<Seq<char>>,
    below: Seq<Seq<char>>,
    other: Seq<Seq<char>>,
    cwd: Seq<char>,
)
    requires
        all_names(home),
        home.len() > 0,
        all_names(below),
        all_names(other),
        other.len() > 0,
    ensures
        dir_text(cwd, None) == cwd,
        dir_text(absolute(home + below), Some(absolute(home))) == seq!['~'] + absolute(below),
        !home.is_prefix_of(other) ==> dir_text(absolute(other), Some(absolute(home))) == absolute(
            other,
        ),
{
    reveal_strlit("~");
    reveal_strlit("~/");
    assert("~"@ =~= seq!['~']);
    assert("~/"@ =~= seq!['~', '/']);
    let root = seq![seq!['/']];
    lemma_absolute(home);
    lemma_absolute(other);
    lemma_absolute_splits(home, below);
    let all = home + below;
    lemma_absolute(all);
    let path = absolute(all);
    if below.len() == 0 {
        assert(all =~= home);
        assert(absolute(below) =~= Seq::<char>::empty());
        assert(seq!['~'] + absolute(below) =~= seq!['~']);
    } else {
        let m = absolute(home).len() as int;
        lemma_absolute(below);
        assert((root + all).len() != (root + home).len());
        assert((root + home).is_prefix_of(root + all)) by {
            assert forall|k: int| 0 <= k < (root + home).len() implies (root + home)[k] == (root
                + all)[k] by {}
        }
        let gaps = slashes(home.len());
        let more = slashes(below.len());
        assert(stands(path, 0, absolute(home)));
        assert(stands(path, m, absolute(below)));
        assert(absolute(below)[0] == '/');
        assert(path[m] == absolute(below)[0]);
        let spans = lemma_names(path, 0, home, gaps);
        let rest = lemma_names(path, m, below, more);
        let end = components_from(path, path.len() as int);
        assert(end =~= Seq::<(int, int)>::empty());
        let found = components_from(path, 0);
        assert(found =~= seq![(0int, 1int)] + spans + rest);
        let k = home.len() as int + 1;
        assert(found[k] == rest[0]);
        assert(found.last() == rest.last());
        assert(more[0] =~= seq!['/']);
        assert(path.subrange(m + 1, path.len() as int) =~= absolute(below).skip(1));
        assert(seq!['~', '/'] + absolute(below).skip(1) =~= seq!['~'] + absolute(below));
        assert(components(absolute(home)).len() == k);
        assert(path_from(path, k) == absolute(below).skip(1));
    }
    if !home.is_prefix_of(other) {
        assert(!(root + home).is_prefix_of(root + other)) by {
            if (root + home).is_prefix_of(root + other) {
                assert forall|k: int| 0 <= k < home.len() implies #[trigger] home[k] == other[k] by {
                    assert((root + home)[k + 1] == (root + other)[k + 1]);
                }
                assert(home =~= other.take(home.len() as int));
                assert(home.is_prefix_of(other));
            }
        }
        assert(root + home != root + other) by {
            if root + home == root + other {
                assert((root + home).is_prefix_of(root + other));
            }
        }
    }
}

} // verus!
