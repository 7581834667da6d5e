//! Git-aware prompt: `~/path  branch* ❯` (dir cyan, branch magenta, dirty red,
//! upstream tracking as `↑N` ahead / `↓N` behind), and startup files.

use vstd::prelude::*;

use crate::lexer::{find_char, lemma_find_char};
use crate::number::{
    decimal, digits, law_parse_reads_decimal, lemma_digits_are_digits, parse_u32, parsed_int,
    unsigned_text,
};
use crate::text::{
    chars_of, is_blank, is_digit_char, is_white_space, law_trimming, same_text, string_of, trim_text,
    trimmed,
};

verus! {

/// The end of the name at `i`: the next `/`, or the end of the path.
pub open spec fn component_end(path: Seq<char>, i: int) -> int
    decreases path.len() - i,
{
    if 0 <= i < path.len() && path[i] != '/' {
        component_end(path, i + 1)
    } else {
        i
    }
}

/// Where the components of a path stand, from `i` on: the root, and the names
/// between the slashes. Repeated slashes and `.` after the first component
/// stand for nothing.
pub open spec fn components_from(path: Seq<char>, i: int) -> Seq<(int, int)>
    decreases path.len() - i,
{
    if !(0 <= i < path.len()) {
        Seq::empty()
    } else if path[i] == '/' {
        if i == 0 {
            seq![(0int, 1int)] + components_from(path, 1)
        } else {
            components_from(path, i + 1)
        }
    } else {
        let end = component_end(path, i);
        if !(i < end <= path.len()) {
            Seq::empty()
        } else if i > 0 && path.subrange(i, end) == seq!['.'] {
            components_from(path, end)
        } else {
            seq![(i, end)] + components_from(path, end)
        }
    }
}

/// The components of a path.
pub open spec fn components(path: Seq<char>) -> Seq<Seq<char>> {
    let spans = components_from(path, 0);
    Seq::new(spans.len(), |k: int| path.subrange(spans[k].0, spans[k].1))
}

/// The text of a path from its component `k` to its last one.
pub open spec fn path_from(path: Seq<char>, k: int) -> Seq<char> {
    let spans = components_from(path, 0);
    path.subrange(spans[k].0, spans.last().1)
}

/// The directory shown in the prompt: `~` for the home directory, `~/` and the
/// path from there below it, else the directory itself. Paths are compared by
/// their components.
pub open spec fn dir_text(cwd: Seq<char>, home: Option<Seq<char>>) -> Seq<char> {
    match home {
        Some(home) => {
            if components(cwd) == components(home) {
                "~"@
            } else if components(home).is_prefix_of(components(cwd)) {
                "~/"@ + path_from(cwd, components(home).len() as int)
            } else {
                cwd
            }
        },
        None => cwd,
    }
}

proof fn lemma_component_end(path: Seq<char>, i: int)
    ensures
        i <= component_end(path, i),
        0 <= i <= path.len() ==> component_end(path, i) <= path.len(),
        0 <= i < path.len() && path[i] != '/' ==> i < component_end(path, i),
    decreases path.len() - i,
{
    if 0 <= i < path.len() && path[i] != '/' {
        lemma_component_end(path, i + 1);
    }
}

/// Where the components of a path stand.
fn component_spans(path: &[char]) -> (r: Vec<(usize, usize)>)
    ensures
        r@.len() == components_from(path@, 0).len(),
        forall|k: int|
            0 <= k < r@.len() ==> {
                &&& (#[trigger] r@[k]).0 == components_from(path@, 0)[k].0
                &&& r@[k].1 == components_from(path@, 0)[k].1
                &&& r@[k].0 < r@[k].1 <= path@.len()
            },
        forall|j: int, k: int|
            0 <= j < k < r@.len() ==> (#[trigger] r@[j]).1 <= (#[trigger] r@[k]).0,
{
    let ghost all = components_from(path@, 0);
    let mut out: Vec<(usize, usize)> = Vec::new();
    let mut i: usize = 0;
    proof {
        assert(all.skip(0) =~= all);
    }
    while i < path.len()
        invariant
            i <= path@.len(),
            all == components_from(path@, 0),
            out@.len() <= all.len(),
            all.skip(out@.len() as int) == components_from(path@, i as int),
            forall|k: int|
                0 <= k < out@.len() ==> {
                    &&& (#[trigger] out@[k]).0 == all[k].0
                    &&& out@[k].1 == all[k].1
                    &&& out@[k].0 < out@[k].1 <= i
                },
            forall|j: int, k: int|
                0 <= j < k < out@.len() ==> (#[trigger] out@[j]).1 <= (#[trigger] out@[k]).0,
        decreases path.len() - i,
    {
        let ghost n = out@.len() as int;
        let ghost rest = components_from(path@, i as int);
        if path[i] == '/' {
            if i == 0 {
                out.push((0, 1));
                proof {
                    assert(rest[0] == (0int, 1int));
                    assert(rest.skip(1) =~= components_from(path@, 1));
                    assert(all.skip(n)[0] == all[n]);
                    assert(all.skip(n + 1) =~= all.skip(n).skip(1));
                }
            }
            i += 1;
        } else {
            let mut end: usize = i;
            while end < path.len() && path[end] != '/'
                invariant
                    i <= end <= path@.len(),
                    component_end(path@, i as int) == component_end(path@, end as int),
                decreases path.len() - end,
            {
                end += 1;
            }
            proof {
                lemma_component_end(path@, i as int);
            }
            let dot = end - i == 1 && path[i] == '.';
            proof {
                assert(dot == (path@.subrange(i as int, end as int) == seq!['.'])) by {
                    if dot {
                        assert(path@.subrange(i as int, end as int) =~= seq!['.']);
                    } else if path@.subrange(i as int, end as int) == seq!['.'] {
                        assert(path@.subrange(i as int, end as int)[0] == path@[i as int]);
                        assert(path@.subrange(i as int, end as int).len() == 1);
                    }
                }
            }
            if i == 0 || !dot {
                out.push((i, end));
                proof {
                    assert(rest[0] == (i as int, end as int));
                    assert(rest.skip(1) =~= components_from(path@, end as int));
                    assert(all.skip(n)[0] == all[n]);
                    assert(all.skip(n + 1) =~= all.skip(n).skip(1));
                }
            }
            i = end;
        }
    }
    proof {
        assert(all.skip(out@.len() as int).len() == 0);
    }
    out
}

/// Whether two parts of paths are the same text.
fn same_part(a: &[char], x: (usize, usize), b: &[char], y: (usize, usize)) -> (r: bool)
    requires
        x.0 <= x.1 <= a@.len(),
        y.0 <= y.1 <= b@.len(),
    ensures
        r == (a@.subrange(x.0 as int, x.1 as int) == b@.subrange(y.0 as int, y.1 as int)),
{
    let p = string_of(a, x.0, x.1);
    let q = string_of(b, y.0, y.1);
    same_text(p.as_str(), q.as_str())
}

/// Cwd with the home directory replaced by `~`.
pub fn shortened_cwd(cwd: &str, home: Option<&str>) -> (r: String)
    ensures
        r@ == dir_text(
            cwd@,
            match home {
                Some(home) => Some(home@),
                None => None,
            },
        ),
{
    let dir = match home {
        Some(dir) => dir,
        None => {
            return String::from_str(cwd);
        },
    };
    let a = chars_of(cwd);
    let b = chars_of(dir);
    let x = component_spans(a.as_slice());
    let y = component_spans(b.as_slice());
    let ghost c = components(cwd@);
    let ghost h = components(dir@);
    if y.len() > x.len() {
        return String::from_str(cwd);
    }
    let mut k: usize = 0;
    while k < y.len()
        invariant
            a@ == cwd@,
            b@ == dir@,
            home == Some(dir),
            c == components(cwd@),
            h == components(dir@),
            c.len() == x@.len(),
            h.len() == y@.len(),
            k <= y@.len() <= x@.len(),
            forall|j: int|
                0 <= j < x@.len() ==> {
                    &&& (#[trigger] x@[j]).0 < x@[j].1 <= a@.len()
                    &&& c[j] == a@.subrange(x@[j].0 as int, x@[j].1 as int)
                },
            forall|j: int|
                0 <= j < y@.len() ==> {
                    &&& (#[trigger] y@[j]).0 < y@[j].1 <= b@.len()
                    &&& h[j] == b@.subrange(y@[j].0 as int, y@[j].1 as int)
                },
            forall|j: int| 0 <= j < k ==> c[j] == h[j],
        decreases y.len() - k,
    {
        if !same_part(a.as_slice(), x[k], b.as_slice(), y[k]) {
            proof {
                assert(c[k as int] != h[k as int]);
                if h.is_prefix_of(c) {
                    assert(c.subrange(0, h.len() as int)[k as int] == c[k as int]);
                }
            }
            return String::from_str(cwd);
        }
        k += 1;
    }
    proof {
        assert(h =~= c.subrange(0, h.len() as int));
    }
    if x.len() == y.len() {
        proof {
            assert(c =~= h);
        }
        return String::from_str("~");
    }
    let from: usize = x[k].0;
    let to: usize = x[x.len() - 1].1;
    proof {
        if k < x@.len() - 1 {
            assert(x@[k as int].1 <= x@[x@.len() - 1].0);
        }
    }
    let rest = string_of(a.as_slice(), from, to);
    String::from_str("~/").concat(rest.as_str())
}

/// The prompt for a directory and its git segment.
pub open spec fn prompt_text(dir: Seq<char>, git: Option<Seq<char>>) -> Seq<char> {
    let shown = "\x1b[36m"@ + dir + "\x1b[0m"@;
    match git {
        Some(segment) => shown + "  "@ + segment + " ❯ "@,
        None => shown + " ❯ "@,
    }
}

/// The prompt for a directory and its git segment; `?` where the directory is
/// not known.
pub fn render(dir: Option<&str>, git: Option<&str>) -> (r: String)
    ensures
        r@ == prompt_text(
            match dir {
                Some(dir) => dir@,
                None => "?"@,
            },
            match git {
                Some(segment) => Some(segment@),
                None => None,
            },
        ),
{
    let shown = String::from_str("\x1b[36m").concat(
        match dir {
            Some(dir) => dir,
            None => "?",
        },
    ).concat("\x1b[0m");
    match git {
        Some(segment) => shown.concat("  ").concat(segment).concat(" ❯ "),
        None => shown.concat(" ❯ "),
    }
}

/// A git segment of the directory, less than 150 ms old.
pub open spec fn is_fresh(same_dir: bool, elapsed: u128) -> bool {
    same_dir && elapsed < 150_000_000
}

/// Whether a git segment that was found `elapsed` nanoseconds ago is still
/// good: for the same directory, for 150 ms.
pub fn segment_is_fresh(same_dir: bool, elapsed: u128) -> (r: bool)
    ensures
        r == is_fresh(same_dir, elapsed),
        r == (same_dir && elapsed < 150_000_000),
{
    same_dir && elapsed < 150_000_000
}

/// The counts of commits ahead and behind that git prints, tab-separated.
pub open spec fn tracking_counts(counts: Seq<char>) -> Option<(int, int)> {
    match find_char(counts, 0, '\t') {
        Some(k) => match (
            parsed_int(trimmed(counts.take(k)), 0, u32::MAX as int),
            parsed_int(trimmed(counts.skip(k + 1)), 0, u32::MAX as int),
        ) {
            (Some(ahead), Some(behind)) => Some((ahead, behind)),
            _ => None,
        },
        None => None,
    }
}

/// The arrow and the count, where there is something to count.
pub open spec fn arrow_text(arrow: Seq<char>, count: int) -> Seq<char> {
    if count > 0 {
        arrow + digits(count as nat)
    } else {
        Seq::empty()
    }
}

/// The tracking part of the git segment.
pub open spec fn tracking_text(counts: Seq<char>) -> Option<Seq<char>> {
    match tracking_counts(counts) {
        Some((ahead, behind)) => Some(arrow_text("↑"@, ahead) + arrow_text("↓"@, behind)),
        None => None,
    }
}

/// `↑N` (ahead) / `↓N` (behind) against the upstream branch, from what git
/// printed; `None` when it printed something else.
pub fn ahead_behind(counts: &str) -> (r: Option<String>)
    ensures
        match r {
            Some(text) => tracking_text(counts@) == Some(text@),
            None => tracking_text(counts@) is None,
        },
{
    let chars = chars_of(counts);
    let n: usize = chars.len();
    let mut k: usize = 0;
    while k < n && chars[k] != '\t'
        invariant
            n == chars@.len(),
            k <= n,
            find_char(chars@, 0, '\t') == find_char(chars@, k as int, '\t'),
        decreases n - k,
    {
        k += 1;
    }
    if k >= n {
        return None;
    }
    let left = string_of(chars.as_slice(), 0, k);
    let right = string_of(chars.as_slice(), k + 1, n);
    proof {
        assert(left@ =~= counts@.take(k as int));
        assert(right@ =~= counts@.skip(k + 1));
    }
    let ahead: u32 = match parse_u32(trim_text(left.as_str()).as_str()) {
        Some(n) => n,
        None => {
            return None;
        },
    };
    let behind: u32 = match parse_u32(trim_text(right.as_str()).as_str()) {
        Some(n) => n,
        None => {
            return None;
        },
    };
    let up = arrow("↑", ahead);
    let down = arrow("↓", behind);
    Some(up.concat(down.as_str()))
}

fn arrow(mark: &str, count: u32) -> (r: String)
    ensures
        r@ == arrow_text(mark@, count as int),
{
    if count > 0 {
        String::from_str(mark).concat(unsigned_text(count as u64).as_str())
    } else {
        String::new()
    }
}

/// The git segment for what git printed: nothing outside a work tree, else the
/// branch, a mark where there are changes, and the tracking counts.
pub open spec fn segment_text(
    inside: Option<Seq<char>>,
    name: Option<Seq<char>>,
    status: Option<Seq<char>>,
    counts: Option<Seq<char>>,
) -> Option<Seq<char>> {
    if inside != Some("true"@) {
        None
    } else {
        let branch = match name {
            Some(name) => name,
            None => "?"@,
        };
        let dirty = if status matches Some(text) && text.len() > 0 {
            "\x1b[31m*\x1b[0m"@
        } else {
            Seq::empty()
        };
        let tracking = match counts {
            Some(counts) => match tracking_text(counts) {
                Some(text) => text,
                None => Seq::empty(),
            },
            None => Seq::empty(),
        };
        Some("\x1b[35m"@ + branch + "\x1b[0m"@ + dirty + tracking)
    }
}

/// The text of an optional string.
pub open spec fn opt_text(text: Option<&str>) -> Option<Seq<char>> {
    match text {
        Some(text) => Some(text@),
        None => None,
    }
}

/// Git part of the prompt, from what git printed (`None` where it failed):
/// whether this is a work tree, the branch or commit, the changes and the
/// counts against the upstream.
pub fn git_segment(
    inside: Option<&str>,
    name: Option<&str>,
    status: Option<&str>,
    counts: Option<&str>,
) -> (r: Option<String>)
    ensures
        match r {
            Some(text) => segment_text(
                opt_text(inside),
                opt_text(name),
                opt_text(status),
                opt_text(counts),
            ) == Some(text@),
            None => segment_text(
                opt_text(inside),
                opt_text(name),
                opt_text(status),
                opt_text(counts),
            ) is None,
        },
{
    let within = match inside {
        Some(answer) => crate::text::same_text(answer, "true"),
        None => false,
    };
    if !within {
        return None;
    }
    let branch = match name {
        Some(name) => name,
        None => "?",
    };
    let changed = match status {
        Some(text) => chars_of(text).len() > 0,
        None => false,
    };
    let dirty = if changed {
        String::from_str("\x1b[31m*\x1b[0m")
    } else {
        String::new()
    };
    let tracking = match counts {
        Some(counts) => match ahead_behind(counts) {
            Some(text) => text,
            None => String::new(),
        },
        None => String::new(),
    };
    Some(
        String::from_str("\x1b[35m").concat(branch).concat("\x1b[0m").concat(
            dirty.as_str(),
        ).concat(tracking.as_str()),
    )
}

/// What a line of a startup file has to run: nothing for a blank line and a
/// comment, else the line without the white space around it.
pub open spec fn rc_command(line: Seq<char>) -> Option<Seq<char>> {
    let text = trimmed(line);
    if text.len() == 0 || text[0] == '#' {
        None
    } else {
        Some(text)
    }
}

/// What a line of a startup file has to run.
pub fn rc_line(line: &str) -> (r: Option<String>)
    ensures
        match r {
            Some(text) => rc_command(line@) == Some(text@),
            None => rc_command(line@) is None,
        },
{
    let text = trim_text(line);
    let chars = chars_of(text.as_str());
    if chars.len() == 0 || chars[0] == '#' {
        None
    } else {
        Some(text)
    }
}

// ---------------------------------------------------------------------------
// Laws.

/// A branch that is level with its upstream shows no arrows.
pub proof fn law_level_shows_no_arrows(counts: Seq<char>)
    requires
        tracking_counts(counts) == Some((0int, 0int)),
    ensures
        tracking_text(counts) == Some(Seq::<char>::empty()),
{
    assert(Seq::<char>::empty() + Seq::<char>::empty() =~= Seq::<char>::empty());
}

/// The dirty mark shows exactly where git lists changes.
pub proof fn law_clean_tree_has_no_mark(name: Seq<char>, counts: Option<Seq<char>>)
    ensures
        segment_text(Some("true"@), Some(name), Some(Seq::empty()), counts) == segment_text(
            Some("true"@),
            Some(name),
            None,
            counts,
        ),
{
}

/// The prompt: the directory in cyan, the git segment two blanks behind it, and
/// the mark.
pub proof fn law_prompt(dir: Seq<char>, git: Seq<char>)
    ensures
        prompt_text(dir, None) == seq!['\u{1b}', '[', '3', '6', 'm'] + dir + seq![
            '\u{1b}',
            '[',
            '0',
            'm',
            ' ',
            '❯',
            ' ',
        ],
        prompt_text(dir, Some(git)) == seq!['\u{1b}', '[', '3', '6', 'm'] + dir + seq![
            '\u{1b}',
            '[',
            '0',
            'm',
            ' ',
            ' ',
        ] + git + seq![' ', '❯', ' '],
{
    reveal_strlit("\x1b[36m");
    reveal_strlit("\x1b[0m");
    reveal_strlit("  ");
    reveal_strlit(" ❯ ");
    assert(prompt_text(dir, None) =~= seq!['\u{1b}', '[', '3', '6', 'm'] + dir + seq![
        '\u{1b}',
        '[',
        '0',
        'm',
        ' ',
        '❯',
        ' ',
    ]);
    assert(prompt_text(dir, Some(git)) =~= seq!['\u{1b}', '[', '3', '6', 'm'] + dir + seq![
        '\u{1b}',
        '[',
        '0',
        'm',
        ' ',
        ' ',
    ] + git + seq![' ', '❯', ' ']);
}

/// The arrow up and the commits ahead, then the arrow down and those behind;
/// nothing for a count of 0. Blanks around the counts change nothing, and
/// without the tab there are no counts.
pub proof fn law_tracking_counts(
    ahead: nat,
    behind: nat,
    a: Seq<char>,
    b: Seq<char>,
    c: Seq<char>,
    text: Seq<char>,
)
    requires
        ahead <= 0xffff_ffff,
        behind <= 0xffff_ffff,
        is_blank(a),
        is_blank(b),
        is_blank(c),
        forall|k: int| 0 <= k < a.len() ==> a[k] != '\t',
    ensures
        tracking_text(a + digits(ahead) + seq!['\t'] + b + digits(behind) + c) == Some(
            (if ahead > 0 {
                seq!['↑'] + digits(ahead)
            } else {
                Seq::empty()
            }) + (if behind > 0 {
                seq!['↓'] + digits(behind)
            } else {
                Seq::empty()
            }),
        ),
        (forall|k: int| 0 <= k < text.len() ==> text[k] != '\t') ==> tracking_text(text) is None,
{
    reveal_strlit("↑");
    reveal_strlit("↓");
    assert("↑"@ =~= seq!['↑']);
    assert("↓"@ =~= seq!['↓']);
    let line = a + digits(ahead) + seq!['\t'] + b + digits(behind) + c;
    let k = (a.len() + digits(ahead).len()) as int;
    lemma_digits_are_digits(ahead);
    lemma_digits_are_digits(behind);
    lemma_find_char(line, 0, '\t');
    lemma_find_char(text, 0, '\t');
    assert(line[k] == '\t');
    assert forall|j: int| 0 <= j < k implies line[j] != '\t' by {
        if j < a.len() {
            assert(line[j] == a[j]);
        } else {
            assert(line[j] == digits(ahead)[j - a.len()]);
            assert(is_digit_char(digits(ahead)[j - a.len()]));
        }
    }
    let none = Seq::<char>::empty();
    assert(line.take(k) =~= a + digits(ahead) + none);
    assert(line.skip(k + 1) =~= b + digits(behind) + c);
    assert(is_digit_char(digits(ahead)[0]) && is_digit_char(digits(ahead).last()));
    assert(is_digit_char(digits(behind)[0]) && is_digit_char(digits(behind).last()));
    law_trimming(a, digits(ahead), none);
    law_trimming(b, digits(behind), c);
    law_parse_reads_decimal(ahead as int, 0, u32::MAX as int);
    law_parse_reads_decimal(behind as int, 0, u32::MAX as int);
    assert(decimal(ahead as int) == digits(ahead));
    assert(decimal(behind as int) == digits(behind));
}

/// The git segment, in a work tree only: the branch in magenta, or `?` where it
/// has no name; a red star where something changed; then the tracking counts,
/// where git printed them.
pub proof fn law_git_segment(
    inside: Option<Seq<char>>,
    name: Seq<char>,
    status: Seq<char>,
    counts: Seq<char>,
)
    ensures
        ({
            let tree = Some(seq!['t', 'r', 'u', 'e']);
            let on = seq!['\u{1b}', '[', '3', '5', 'm'];
            let off = seq!['\u{1b}', '[', '0', 'm'];
            let star = seq!['\u{1b}', '[', '3', '1', 'm', '*', '\u{1b}', '[', '0', 'm'];
            &&& inside != tree ==> segment_text(inside, Some(name), Some(status), Some(counts)) is None
            &&& segment_text(tree, Some(name), None, None) == Some(on + name + off)
            &&& segment_text(tree, None, None, None) == Some(on + seq!['?'] + off)
            &&& segment_text(tree, Some(name), Some(status), None) == Some(
                on + name + off + if status.len() > 0 {
                    star
                } else {
                    Seq::empty()
                },
            )
            &&& segment_text(tree, Some(name), Some(status), Some(counts)) == Some(
                on + name + off + (if status.len() > 0 {
                    star
                } else {
                    Seq::empty()
                }) + (match tracking_text(counts) {
                    Some(text) => text,
                    None => Seq::empty(),
                }),
            )
        }),
{
    reveal_strlit("true");
    reveal_strlit("?");
    reveal_strlit("\x1b[31m*\x1b[0m");
    reveal_strlit("\x1b[35m");
    reveal_strlit("\x1b[0m");
    assert("true"@ =~= seq!['t', 'r', 'u', 'e']);
    assert("?"@ =~= seq!['?']);
    assert("\x1b[31m*\x1b[0m"@ =~= seq!['\u{1b}', '[', '3', '1', 'm', '*', '\u{1b}', '[', '0', 'm']);
    assert("\x1b[35m"@ =~= seq!['\u{1b}', '[', '3', '5', 'm']);
    assert("\x1b[0m"@ =~= seq!['\u{1b}', '[', '0', 'm']);
    let none = Seq::<char>::empty();
    assert forall|s: Seq<char>| #[trigger] (s + none) == s by {
        assert(s + none =~= s);
    }
}

/// A segment holds for 150 milliseconds, and in its own directory only.
pub proof fn law_segments_expire(elapsed: u128)
    ensures
        is_fresh(true, elapsed) <==> elapsed < 150_000_000,
        !is_fresh(false, elapsed),
{
}

/// A startup line runs without the white space around it; blank lines and lines
/// that start with `#` run nothing.
pub proof fn law_startup_lines(before: Seq<char>, text: Seq<char>, after: Seq<char>)
    requires
        is_blank(before),
        is_blank(after),
        text.len() > 0 ==> !is_white_space(text[0]) && !is_white_space(text.last()),
    ensures
        rc_command(before + text + after) == if text.len() == 0 || text[0] == '#' {
            None
        } else {
            Some(text)
        },
{
    law_trimming(before, text, after);
}

} // verus!
