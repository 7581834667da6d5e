//! Command substitution: the `$(...)` bodies of a pipeline, and the pipeline
//! with their outputs in place.

use vstd::prelude::*;
use vstd::utf8::{decode_utf8, valid_utf8};

use crate::lexer::{part_views, Part, PartView};
use crate::parser::{
    command_views, parse, parsed, redirect_views, word_views, Command, CommandView, Pipeline,
    PipelineView, Redirect, RedirectView, Script,
};
use crate::shell::Shell;
use crate::text::{chars_of, string_of, texts};

verus! {

// ---------------------------------------------------------------------------
// What there is to run.

/// The command line of a part, if the part is a substitution.
pub open spec fn part_line(part: PartView) -> Option<Seq<char>> {
    match part {
        PartView::Subst(line) => Some(line),
        PartView::QSubst(line) => Some(line),
        _ => None,
    }
}

/// The command lines of a word's substitutions, in order.
pub open spec fn word_lines(parts: Seq<PartView>) -> Seq<Seq<char>>
    decreases parts.len(),
{
    if parts.len() == 0 {
        Seq::empty()
    } else {
        match part_line(parts.last()) {
            Some(line) => word_lines(parts.drop_last()).push(line),
            None => word_lines(parts.drop_last()),
        }
    }
}

/// The command lines of the substitutions of `words`, in order.
pub open spec fn words_lines(words: Seq<Seq<PartView>>) -> Seq<Seq<char>>
    decreases words.len(),
{
    if words.len() == 0 {
        Seq::empty()
    } else {
        words_lines(words.drop_last()) + word_lines(words.last())
    }
}

/// The target word of a redirect.
pub open spec fn target_of(redirect: RedirectView) -> Seq<PartView> {
    match redirect {
        RedirectView::In(target) => target,
        RedirectView::Out { target, .. } => target,
        RedirectView::ErrOut { target, .. } => target,
    }
}

/// The target words of redirects.
pub open spec fn targets_of(redirects: Seq<RedirectView>) -> Seq<Seq<PartView>> {
    Seq::new(redirects.len(), |i: int| target_of(redirects[i]))
}

/// The command lines of a command's substitutions: those of its words, then
/// those of its redirect targets.
pub open spec fn command_lines(cmd: CommandView) -> Seq<Seq<char>> {
    words_lines(cmd.argv) + words_lines(targets_of(cmd.redirects))
}

/// The command lines of the substitutions of `cmds`, in order.
pub open spec fn commands_lines(cmds: Seq<CommandView>) -> Seq<Seq<char>>
    decreases cmds.len(),
{
    if cmds.len() == 0 {
        Seq::empty()
    } else {
        commands_lines(cmds.drop_last()) + command_lines(cmds.last())
    }
}

// ---------------------------------------------------------------------------
// With the outputs in place.

/// A substitution with its output in place: that of an unquoted one is split
/// and globbed like a variable, that of a quoted one is literal.
pub open spec fn filled_part(part: PartView, output: Seq<char>) -> PartView {
    match part {
        PartView::Subst(_) => PartView::SubstOut(output),
        PartView::QSubst(_) => PartView::QLit(output),
        other => other,
    }
}

/// A word with the outputs of its substitutions, the first of `outs`, in
/// place.
pub open spec fn filled_word(parts: Seq<PartView>, outs: Seq<Seq<char>>) -> Seq<PartView>
    decreases parts.len(),
{
    if parts.len() == 0 {
        Seq::empty()
    } else {
        let k = word_lines(parts.drop_last()).len() as int;
        filled_word(parts.drop_last(), outs).push(filled_part(parts.last(), outs[k]))
    }
}

/// Words with the outputs of their substitutions in place.
pub open spec fn filled_words(words: Seq<Seq<PartView>>, outs: Seq<Seq<char>>) -> Seq<Seq<PartView>>
    decreases words.len(),
{
    if words.len() == 0 {
        Seq::empty()
    } else {
        let k = words_lines(words.drop_last()).len() as int;
        filled_words(words.drop_last(), outs).push(filled_word(words.last(), outs.skip(k)))
    }
}

/// A redirect with another target.
pub open spec fn with_target(redirect: RedirectView, target: Seq<PartView>) -> RedirectView {
    match redirect {
        RedirectView::In(_) => RedirectView::In(target),
        RedirectView::Out { append, .. } => RedirectView::Out { target, append },
        RedirectView::ErrOut { append, .. } => RedirectView::ErrOut { target, append },
    }
}

/// A command with the outputs of its substitutions in place.
pub open spec fn filled_command(cmd: CommandView, outs: Seq<Seq<char>>) -> CommandView {
    let k = words_lines(cmd.argv).len() as int;
    let targets = filled_words(targets_of(cmd.redirects), outs.skip(k));
    CommandView {
        argv: filled_words(cmd.argv, outs),
        redirects: Seq::new(
            cmd.redirects.len(),
            |i: int| with_target(cmd.redirects[i], targets[i]),
        ),
    }
}

/// Commands with the outputs of their substitutions in place.
pub open spec fn filled_commands(cmds: Seq<CommandView>, outs: Seq<Seq<char>>) -> Seq<CommandView>
    decreases cmds.len(),
{
    if cmds.len() == 0 {
        Seq::empty()
    } else {
        let k = commands_lines(cmds.drop_last()).len() as int;
        filled_commands(cmds.drop_last(), outs).push(filled_command(cmds.last(), outs.skip(k)))
    }
}

/// A pipeline with the outputs of its substitutions in place.
pub open spec fn filled_pipeline(pipeline: PipelineView, outs: Seq<Seq<char>>) -> PipelineView {
    PipelineView { cmds: filled_commands(pipeline.cmds, outs), ..pipeline }
}

// ---------------------------------------------------------------------------
// Implementation.

/// Add the command lines of a word's substitutions.
fn add_word_lines(parts: &[Part], out: &mut Vec<String>)
    ensures
        texts(final(out)@) == texts(old(out)@) + word_lines(part_views(parts@)),
{
    let ghost all = part_views(parts@);
    let ghost before = texts(out@);
    let mut i: usize = 0;
    proof {
        assert(before + word_lines(all.take(0)) =~= before);
    }
    while i < parts.len()
        invariant
            all == part_views(parts@),
            before == texts(old(out)@),
            i <= parts@.len(),
            texts(out@) == before + word_lines(all.take(i as int)),
        decreases parts.len() - i,
    {
        let ghost so_far = texts(out@);
        proof {
            assert(all.take(i + 1).drop_last() =~= all.take(i as int));
            assert(all.take(i + 1).last() == parts@[i as int]@);
        }
        match &parts[i] {
            Part::Subst(line) => {
                out.push(line.clone());
                proof {
                    assert(texts(out@) =~= so_far.push(line@));
                }
            },
            Part::QSubst(line) => {
                out.push(line.clone());
                proof {
                    assert(texts(out@) =~= so_far.push(line@));
                }
            },
            _ => {},
        }
        proof {
            assert(texts(out@) =~= before + word_lines(all.take(i + 1)));
        }
        i += 1;
    }
    proof {
        assert(all.take(parts@.len() as int) =~= all);
    }
}

/// The target word of a redirect.
fn target_word(redirect: &Redirect) -> (r: &Vec<Part>)
    ensures
        part_views(r@) == target_of(redirect@),
{
    match redirect {
        Redirect::In(target) => target,
        Redirect::Out { target, .. } => target,
        Redirect::ErrOut { target, .. } => target,
    }
}

/// Add the command lines of a command's substitutions.
fn add_command_lines(cmd: &Command, out: &mut Vec<String>)
    ensures
        texts(final(out)@) == texts(old(out)@) + command_lines(cmd@),
{
    let ghost before = texts(out@);
    let ghost words = cmd@.argv;
    let ghost targets = targets_of(cmd@.redirects);
    let mut i: usize = 0;
    proof {
        assert(before + words_lines(words.take(0)) =~= before);
    }
    while i < cmd.argv.len()
        invariant
            words == word_views(cmd.argv@),
            before == texts(old(out)@),
            i <= cmd.argv@.len(),
            texts(out@) == before + words_lines(words.take(i as int)),
        decreases cmd.argv.len() - i,
    {
        add_word_lines(cmd.argv[i].as_slice(), out);
        proof {
            assert(words.take(i + 1).drop_last() =~= words.take(i as int));
            assert(words.take(i + 1).last() == part_views(cmd.argv@[i as int]@));
            assert(texts(out@) =~= before + words_lines(words.take(i + 1)));
        }
        i += 1;
    }
    let ghost middle = texts(out@);
    let mut j: usize = 0;
    proof {
        assert(words.take(words.len() as int) =~= words);
        assert(middle + words_lines(targets.take(0)) =~= middle);
    }
    while j < cmd.redirects.len()
        invariant
            targets == targets_of(redirect_views(cmd.redirects@)),
            j <= cmd.redirects@.len(),
            texts(out@) == middle + words_lines(targets.take(j as int)),
        decreases cmd.redirects.len() - j,
    {
        add_word_lines(target_word(&cmd.redirects[j]).as_slice(), out);
        proof {
            assert(targets.take(j + 1).drop_last() =~= targets.take(j as int));
            assert(targets.take(j + 1).last() == target_of(cmd.redirects@[j as int]@));
            assert(texts(out@) =~= middle + words_lines(targets.take(j + 1)));
        }
        j += 1;
    }
    proof {
        assert(targets.take(targets.len() as int) =~= targets);
        assert(texts(out@) =~= before + command_lines(cmd@));
    }
}

/// The command lines of a pipeline's substitutions, in the order in which they
/// are run.
pub fn substitutions(pipeline: &Pipeline) -> (r: Vec<String>)
    ensures
        texts(r@) == commands_lines(pipeline@.cmds),
{
    let ghost all = pipeline@.cmds;
    let mut out: Vec<String> = Vec::new();
    let mut i: usize = 0;
    proof {
        assert(texts(out@) =~= commands_lines(all.take(0)));
    }
    while i < pipeline.cmds.len()
        invariant
            all == command_views(pipeline.cmds@),
            i <= pipeline.cmds@.len(),
            texts(out@) == commands_lines(all.take(i as int)),
        decreases pipeline.cmds.len() - i,
    {
        add_command_lines(&pipeline.cmds[i], &mut out);
        proof {
            assert(all.take(i + 1).drop_last() =~= all.take(i as int));
            assert(all.take(i + 1).last() == pipeline.cmds@[i as int]@);
        }
        i += 1;
    }
    proof {
        assert(all.take(all.len() as int) =~= all);
    }
    out
}

proof fn lemma_word_lines_prefix(parts: Seq<PartView>, i: int)
    requires
        0 <= i <= parts.len(),
    ensures
        word_lines(parts.take(i)).len() <= word_lines(parts).len(),
        i < parts.len() && part_line(parts[i]) is Some ==> word_lines(parts.take(i)).len()
            < word_lines(parts).len(),
    decreases parts.len(),
{
    if i == parts.len() {
        assert(parts.take(i) =~= parts);
    } else {
        let head = parts.drop_last();
        assert(head.take(i) =~= parts.take(i));
        lemma_word_lines_prefix(head, i);
        if i == parts.len() - 1 {
            assert(parts.take(i) =~= head);
        } else {
            assert(head[i] == parts[i]);
        }
    }
}

/// A word with the outputs of its substitutions, which stand in `outs` from
/// `pos` on, in place; `pos` moves past them.
fn fill_word(parts: &[Part], outs: &[String], pos: &mut usize) -> (r: Vec<Part>)
    requires
        *old(pos) + word_lines(part_views(parts@)).len() <= outs@.len(),
    ensures
        part_views(r@) == filled_word(part_views(parts@), texts(outs@).skip(*old(pos) as int)),
        *final(pos) == *old(pos) + word_lines(part_views(parts@)).len(),
{
    let ghost all = part_views(parts@);
    let ghost start = *pos as int;
    let ghost texts_here = texts(outs@).skip(start);
    let mut out: Vec<Part> = Vec::new();
    let mut i: usize = 0;
    proof {
        assert(part_views(out@) =~= filled_word(all.take(0), texts_here));
    }
    while i < parts.len()
        invariant
            all == part_views(parts@),
            start == *old(pos),
            start + word_lines(all).len() <= outs@.len(),
            texts_here == texts(outs@).skip(start),
            i <= parts@.len(),
            *pos == start + word_lines(all.take(i as int)).len(),
            part_views(out@) == filled_word(all.take(i as int), texts_here),
        decreases parts.len() - i,
    {
        let ghost before = part_views(out@);
        proof {
            lemma_word_lines_prefix(all, i as int);
            assert(all.take(i + 1).drop_last() =~= all.take(i as int));
            assert(all.take(i + 1).last() == parts@[i as int]@);
            assert(all[i as int] == parts@[i as int]@);
        }
        let filled = match &parts[i] {
            Part::Subst(_) => {
                proof {
                    assert(texts_here[*pos - start] == outs@[*pos as int]@);
                }
                let part = Part::SubstOut(outs[*pos].clone());
                *pos = *pos + 1;
                part
            },
            Part::QSubst(_) => {
                proof {
                    assert(texts_here[*pos - start] == outs@[*pos as int]@);
                }
                let part = Part::QLit(outs[*pos].clone());
                *pos = *pos + 1;
                part
            },
            other => other.clone(),
        };
        out.push(filled);
        proof {
            assert(part_views(out@) =~= before.push(filled@));
        }
        i += 1;
    }
    proof {
        assert(all.take(parts@.len() as int) =~= all);
    }
    out
}

proof fn lemma_words_lines_prefix(words: Seq<Seq<PartView>>, i: int)
    requires
        0 <= i < words.len(),
    ensures
        words_lines(words.take(i)).len() + word_lines(words[i]).len() <= words_lines(words).len(),
    decreases words.len(),
{
    let head = words.drop_last();
    if i == words.len() - 1 {
        assert(words.take(i) =~= head);
    } else {
        assert(head.take(i) =~= words.take(i));
        lemma_words_lines_prefix(head, i);
    }
}

proof fn lemma_commands_lines_prefix(cmds: Seq<CommandView>, i: int)
    requires
        0 <= i < cmds.len(),
    ensures
        commands_lines(cmds.take(i)).len() + command_lines(cmds[i]).len() <= commands_lines(
            cmds,
        ).len(),
    decreases cmds.len(),
{
    let head = cmds.drop_last();
    if i == cmds.len() - 1 {
        assert(cmds.take(i) =~= head);
    } else {
        assert(head.take(i) =~= cmds.take(i));
        lemma_commands_lines_prefix(head, i);
    }
}

/// A command with the outputs of its substitutions in place.
fn fill_command(cmd: &Command, outs: &[String], pos: &mut usize) -> (r: Command)
    requires
        *old(pos) + command_lines(cmd@).len() <= outs@.len(),
    ensures
        r@ == filled_command(cmd@, texts(outs@).skip(*old(pos) as int)),
        *final(pos) == *old(pos) + command_lines(cmd@).len(),
{
    let ghost start = *pos as int;
    let ghost all = texts(outs@);
    let ghost words = cmd@.argv;
    let ghost targets = targets_of(cmd@.redirects);
    let ghost here = all.skip(start);
    let mut argv: Vec<Vec<Part>> = Vec::new();
    let mut i: usize = 0;
    proof {
        assert(word_views(argv@) =~= filled_words(words.take(0), here));
    }
    while i < cmd.argv.len()
        invariant
            all == texts(outs@),
            start == *old(pos),
            here == all.skip(start),
            words == word_views(cmd.argv@),
            start + words_lines(words).len() <= outs@.len(),
            i <= cmd.argv@.len(),
            *pos == start + words_lines(words.take(i as int)).len(),
            word_views(argv@) == filled_words(words.take(i as int), here),
        decreases cmd.argv.len() - i,
    {
        let ghost before = word_views(argv@);
        proof {
            lemma_words_lines_prefix(words, i as int);
            assert(words[i as int] == part_views(cmd.argv@[i as int]@));
            assert(words.take(i + 1).drop_last() =~= words.take(i as int));
            assert(here.skip(*pos - start) =~= all.skip(*pos as int));
        }
        let word = fill_word(cmd.argv[i].as_slice(), outs, pos);
        argv.push(word);
        proof {
            assert(word_views(argv@) =~= before.push(part_views(word@)));
        }
        i += 1;
    }
    let ghost middle = *pos as int;
    let ghost there = all.skip(middle);
    let ghost filled_targets = filled_words(targets, there);
    let mut redirects: Vec<Redirect> = Vec::new();
    let mut j: usize = 0;
    proof {
        assert(words.take(words.len() as int) =~= words);
        assert(here.skip(middle - start) =~= there);
        assert(words_lines(targets.take(0)).len() == 0);
    }
    while j < cmd.redirects.len()
        invariant
            all == texts(outs@),
            there == all.skip(middle),
            0 <= middle,
            targets == targets_of(redirect_views(cmd.redirects@)),
            filled_targets == filled_words(targets, there),
            middle + words_lines(targets).len() <= outs@.len(),
            j <= cmd.redirects@.len(),
            *pos == middle + words_lines(targets.take(j as int)).len(),
            redirects@.len() == j,
            forall|k: int|
                0 <= k < j ==> (#[trigger] redirects@[k])@ == with_target(
                    cmd.redirects@[k]@,
                    filled_targets[k],
                ),
        decreases cmd.redirects.len() - j,
    {
        proof {
            lemma_words_lines_prefix(targets, j as int);
            assert(targets.take(j + 1).drop_last() =~= targets.take(j as int));
            assert(targets.take(j + 1).last() == targets[j as int]);
            assert(there.skip(*pos - middle) =~= all.skip(*pos as int));
            lemma_filled_words_index(targets, there, j as int);
        }
        let target = fill_word(target_word(&cmd.redirects[j]).as_slice(), outs, pos);
        let redirect = match &cmd.redirects[j] {
            Redirect::In(_) => Redirect::In(target),
            Redirect::Out { append, .. } => Redirect::Out { target, append: *append },
            Redirect::ErrOut { append, .. } => Redirect::ErrOut { target, append: *append },
        };
        redirects.push(redirect);
        j += 1;
    }
    let r = Command { argv, redirects };
    proof {
        assert(targets.take(targets.len() as int) =~= targets);
        assert(r@.redirects =~= filled_command(cmd@, here).redirects);
    }
    r
}

proof fn lemma_filled_words_index(words: Seq<Seq<PartView>>, outs: Seq<Seq<char>>, i: int)
    requires
        0 <= i < words.len(),
    ensures
        filled_words(words, outs).len() == words.len(),
        filled_words(words, outs)[i] == filled_word(
            words[i],
            outs.skip(words_lines(words.take(i)).len() as int),
        ),
    decreases words.len(),
{
    let head = words.drop_last();
    lemma_filled_words_len(head, outs);
    if i == words.len() - 1 {
        assert(words.take(i) =~= head);
    } else {
        lemma_filled_words_index(head, outs, i);
        assert(head.take(i) =~= words.take(i));
    }
}

proof fn lemma_filled_words_len(words: Seq<Seq<PartView>>, outs: Seq<Seq<char>>)
    ensures
        filled_words(words, outs).len() == words.len(),
    decreases words.len(),
{
    if words.len() > 0 {
        lemma_filled_words_len(words.drop_last(), outs);
    }
}

/// The pipeline with every substitution replaced by its output, in the order
/// of [`substitutions`].
pub fn substitute_pipeline(pipeline: &Pipeline, outs: &[String]) -> (r: Pipeline)
    requires
        outs@.len() == commands_lines(pipeline@.cmds).len(),
    ensures
        r@ == filled_pipeline(pipeline@, texts(outs@)),
{
    let ghost all = pipeline@.cmds;
    let ghost given = texts(outs@);
    let mut cmds: Vec<Command> = Vec::new();
    let mut pos: usize = 0;
    let mut i: usize = 0;
    proof {
        assert(command_views(cmds@) =~= filled_commands(all.take(0), given));
    }
    while i < pipeline.cmds.len()
        invariant
            all == command_views(pipeline.cmds@),
            given == texts(outs@),
            outs@.len() == commands_lines(all).len(),
            i <= pipeline.cmds@.len(),
            pos == commands_lines(all.take(i as int)).len(),
            command_views(cmds@) == filled_commands(all.take(i as int), given),
        decreases pipeline.cmds.len() - i,
    {
        let ghost before = command_views(cmds@);
        proof {
            lemma_commands_lines_prefix(all, i as int);
            assert(all[i as int] == pipeline.cmds@[i as int]@);
            assert(all.take(i + 1).drop_last() =~= all.take(i as int));
        }
        let cmd = fill_command(&pipeline.cmds[i], outs, &mut pos);
        cmds.push(cmd);
        proof {
            assert(command_views(cmds@) =~= before.push(cmd@));
        }
        i += 1;
    }
    proof {
        assert(all.take(all.len() as int) =~= all);
    }
    Pipeline { cmds, background: pipeline.background }
}

// ---------------------------------------------------------------------------
// The sub-shell.

/// What a substitution sets aside while it runs.
pub struct Aside {
    pub capture: Option<Vec<u8>>,
    pub should_exit: bool,
}

/// `inside` is `before` with an empty buffer to capture output in and no
/// request to exit; what was there of both is in `aside`.
pub open spec fn set_aside(before: Shell, inside: Shell, aside: Aside) -> bool {
    &&& aside.capture == before.capture
    &&& aside.should_exit == before.should_exit
    &&& inside.capture matches Some(bytes) && bytes@.len() == 0
    &&& !inside.should_exit
    &&& inside.env == before.env
    &&& inside.last_status == before.last_status
    &&& inside.history == before.history
    &&& inside.jobs == before.jobs
}

/// `after` is `inside` with what was set aside back in place.
pub open spec fn put_back(inside: Shell, aside: Aside, after: Shell) -> bool {
    &&& after.capture == aside.capture
    &&& after.should_exit == aside.should_exit
    &&& after.env == inside.env
    &&& after.last_status == inside.last_status
    &&& after.history == inside.history
    &&& after.jobs == inside.jobs
}

/// Start running a substitution: output is captured, and a request to exit
/// concerns the substitution only.
pub fn begin_substitution(shell: &mut Shell) -> (r: Aside)
    ensures
        set_aside(*old(shell), *final(shell), r),
{
    let mut capture: Option<Vec<u8>> = Some(Vec::new());
    std::mem::swap(&mut capture, &mut shell.capture);
    let should_exit = shell.should_exit;
    shell.should_exit = false;
    Aside { capture, should_exit }
}

/// Start running the body of a substitution: the script to run, and what is set
/// aside meanwhile. A body that does not parse is not run: its output is the
/// empty text, and the shell stays as it is.
pub fn open_substitution(shell: &mut Shell, line: &str) -> (r: Result<(Script, Aside), String>)
    ensures
        match parsed(line@) {
            Ok(script) => {
                &&& r matches Ok((out, aside))
                &&& out@ == script
                &&& set_aside(*old(shell), *final(shell), aside)
            },
            Err(_) => {
                &&& r matches Err(text)
                &&& text@ == Seq::<char>::empty()
                &&& *final(shell) == *old(shell)
            },
        },
{
    match parse(line) {
        Ok(script) => {
            let aside = begin_substitution(shell);
            Ok((script, aside))
        },
        Err(_) => {
            let none = String::new();
            proof {
                assert(none@ =~= Seq::<char>::empty());
            }
            Err(none)
        },
    }
}

/// The text of `bytes`, with what is not UTF-8 replaced.
pub uninterp spec fn lossy_text(bytes: Seq<u8>) -> Seq<char>;

/// `String::from_utf8_lossy`: the text that UTF-8 bytes encode; what is not
/// UTF-8 in them is replaced, a function of the bytes alone.
#[verifier::external_body]
pub(crate) fn text_of_bytes(bytes: &[u8]) -> (r: String)
    ensures
        r@ == lossy_text(bytes@),
        valid_utf8(bytes@) ==> r@ == decode_utf8(bytes@),
{
    String::from_utf8_lossy(bytes).into_owned()
}

/// `s` without the newlines at its end.
pub open spec fn without_newlines(s: Seq<char>) -> Seq<char>
    decreases s.len(),
{
    if s.len() > 0 && s.last() == '\n' {
        without_newlines(s.drop_last())
    } else {
        s
    }
}

/// The text without the newlines at its end.
pub fn strip_newlines(text: &str) -> (r: String)
    ensures
        r@ == without_newlines(text@),
{
    let chars = chars_of(text);
    let mut n: usize = chars.len();
    proof {
        assert(chars@.take(n as int) =~= chars@);
    }
    while n > 0 && chars[n - 1] == '\n'
        invariant
            n <= chars@.len(),
            without_newlines(chars@) == without_newlines(chars@.take(n as int)),
        decreases n,
    {
        proof {
            assert(chars@.take(n as int).drop_last() =~= chars@.take(n - 1));
        }
        n -= 1;
    }
    proof {
        assert(chars@.subrange(0, n as int) =~= chars@.take(n as int));
    }
    string_of(chars.as_slice(), 0, n)
}

/// The bytes that were captured.
pub open spec fn captured_bytes(capture: Option<Vec<u8>>) -> Seq<u8> {
    match capture {
        Some(bytes) => bytes@,
        None => Seq::empty(),
    }
}

/// End a substitution: what was set aside is back in place. Returns the
/// output, without the newlines at its end.
pub fn end_substitution(shell: &mut Shell, aside: Aside) -> (r: String)
    ensures
        r@ == without_newlines(lossy_text(captured_bytes(old(shell).capture))),
        valid_utf8(captured_bytes(old(shell).capture)) ==> r@ == without_newlines(
            decode_utf8(captured_bytes(old(shell).capture)),
        ),
        put_back(*old(shell), aside, *final(shell)),
{
    let mut capture = aside.capture;
    std::mem::swap(&mut capture, &mut shell.capture);
    shell.should_exit = aside.should_exit;
    let text = match &capture {
        Some(bytes) => text_of_bytes(bytes.as_slice()),
        None => {
            let none: Vec<u8> = Vec::new();
            proof {
                assert(none@ =~= Seq::<u8>::empty());
            }
            text_of_bytes(none.as_slice())
        },
    };
    strip_newlines(text.as_str())
}

/// The output with `bytes` after it.
pub open spec fn output_with(capture: Option<Vec<u8>>, bytes: Seq<u8>) -> Seq<u8> {
    captured_bytes(capture) + bytes
}

/// Write command output that targets the terminal: into the capture buffer
/// during command substitution; otherwise it is left to the caller, who has
/// to write it to the terminal when the result says so.
pub fn write_out(shell: &mut Shell, bytes: &[u8]) -> (to_terminal: bool)
    ensures
        to_terminal == (old(shell).capture is None),
        old(shell).capture is None ==> *final(shell) == *old(shell),
        old(shell).capture is Some ==> {
            &&& final(shell).capture is Some
            &&& captured_bytes(final(shell).capture) == output_with(old(shell).capture, bytes@)
            &&& final(shell).env == old(shell).env
            &&& final(shell).last_status == old(shell).last_status
            &&& final(shell).should_exit == old(shell).should_exit
            &&& final(shell).history == old(shell).history
            &&& final(shell).jobs == old(shell).jobs
        },
{
    let mut capture: Option<Vec<u8>> = None;
    std::mem::swap(&mut capture, &mut shell.capture);
    match capture {
        None => true,
        Some(mut buffer) => {
            let ghost before = buffer@;
            let mut i: usize = 0;
            proof {
                assert(before + bytes@.take(0) =~= before);
            }
            while i < bytes.len()
                invariant
                    i <= bytes@.len(),
                    buffer@ == before + bytes@.take(i as int),
                decreases bytes.len() - i,
            {
                buffer.push(bytes[i]);
                proof {
                    assert(buffer@ =~= before + bytes@.take(i + 1));
                }
                i += 1;
            }
            proof {
                assert(bytes@.take(bytes@.len() as int) =~= bytes@);
            }
            shell.capture = Some(buffer);
            false
        },
    }
}

// ---------------------------------------------------------------------------
// Laws.

proof fn lemma_filled_word_has_no_lines(parts: Seq<PartView>, outs: Seq<Seq<char>>)
    ensures
        word_lines(filled_word(parts, outs)).len() == 0,
        filled_word(parts, outs).len() == parts.len(),
    decreases parts.len(),
{
    if parts.len() > 0 {
        lemma_filled_word_has_no_lines(parts.drop_last(), outs);
        let filled = filled_word(parts, outs);
        assert(filled.drop_last() =~= filled_word(parts.drop_last(), outs));
    }
}

proof fn lemma_filled_words_have_no_lines(words: Seq<Seq<PartView>>, outs: Seq<Seq<char>>)
    ensures
        words_lines(filled_words(words, outs)).len() == 0,
    decreases words.len(),
{
    if words.len() > 0 {
        lemma_filled_words_have_no_lines(words.drop_last(), outs);
        let filled = filled_words(words, outs);
        let k = words_lines(words.drop_last()).len() as int;
        assert(filled.drop_last() =~= filled_words(words.drop_last(), outs));
        lemma_filled_word_has_no_lines(words.last(), outs.skip(k));
    }
}

/// Once the outputs are in place nothing is left to substitute: output is
/// never run again.
pub proof fn law_substituted_once(cmds: Seq<CommandView>, outs: Seq<Seq<char>>)
    ensures
        commands_lines(filled_commands(cmds, outs)).len() == 0,
    decreases cmds.len(),
{
    if cmds.len() > 0 {
        law_substituted_once(cmds.drop_last(), outs);
        let filled = filled_commands(cmds, outs);
        assert(filled.drop_last() =~= filled_commands(cmds.drop_last(), outs));
        let k = commands_lines(cmds.drop_last()).len() as int;
        let cmd = cmds.last();
        let here = outs.skip(k);
        let done = filled_command(cmd, here);
        lemma_filled_words_have_no_lines(cmd.argv, here);
        let targets = targets_of(cmd.redirects);
        let there = here.skip(words_lines(cmd.argv).len() as int);
        lemma_filled_words_have_no_lines(targets, there);
        lemma_filled_words_len(targets, there);
        assert(targets_of(done.redirects) =~= filled_words(targets, there));
    }
}

/// A word without substitutions is left as it is.
pub proof fn law_nothing_to_substitute(parts: Seq<PartView>, outs: Seq<Seq<char>>)
    requires
        word_lines(parts).len() == 0,
    ensures
        filled_word(parts, outs) == parts,
    decreases parts.len(),
{
    if parts.len() > 0 {
        law_nothing_to_substitute(parts.drop_last(), outs);
        assert(parts.drop_last().push(parts.last()) =~= parts);
    } else {
        assert(filled_word(parts, outs) =~= parts);
    }
}

/// A substitution is contained: whatever ran in it, the output captured so far
/// and a request to exit are afterwards what they were before, and what was
/// written first in it is all that was captured then.
pub proof fn law_substitution_is_contained(
    before: Shell,
    inside: Shell,
    aside: Aside,
    ran: Shell,
    after: Shell,
    bytes: Seq<u8>,
)
    requires
        set_aside(before, inside, aside),
        put_back(ran, aside, after),
    ensures
        after.capture == before.capture,
        after.should_exit == before.should_exit,
        output_with(inside.capture, bytes) == bytes,
{
    assert(output_with(inside.capture, bytes) =~= bytes);
}

/// The output of a substitution never ends in a newline.
pub proof fn law_output_ends_without_newline(s: Seq<char>)
    ensures
        without_newlines(s).len() > 0 ==> without_newlines(s).last() != '\n',
        without_newlines(s).is_prefix_of(s),
    decreases s.len(),
{
    if s.len() > 0 && s.last() == '\n' {
        law_output_ends_without_newline(s.drop_last());
        let t = without_newlines(s);
        assert(t =~= s.subrange(0, t.len() as int));
    } else {
        assert(s =~= s.subrange(0, s.len() as int));
    }
}

/// `a` and `b` start with the same `n` outputs.
pub open spec fn agree(a: Seq<Seq<char>>, b: Seq<Seq<char>>, n: int) -> bool {
    &&& n <= a.len()
    &&& n <= b.len()
    &&& forall|k: int| 0 <= k < n ==> #[trigger] a[k] == b[k]
}

proof fn lemma_word_agrees(parts: Seq<PartView>, a: Seq<Seq<char>>, b: Seq<Seq<char>>)
    requires
        agree(a, b, word_lines(parts).len() as int),
    ensures
        filled_word(parts, a) == filled_word(parts, b),
    decreases parts.len(),
{
    if parts.len() > 0 {
        let head = parts.drop_last();
        let k = word_lines(head).len() as int;
        assert forall|j: int| 0 <= j < k implies #[trigger] a[j] == b[j] by {}
        lemma_word_agrees(head, a, b);
        if part_line(parts.last()) is Some {
            assert(a[k] == b[k]);
        }
    }
}

proof fn lemma_words_agree(words: Seq<Seq<PartView>>, a: Seq<Seq<char>>, b: Seq<Seq<char>>)
    requires
        agree(a, b, words_lines(words).len() as int),
    ensures
        filled_words(words, a) == filled_words(words, b),
    decreases words.len(),
{
    if words.len() > 0 {
        let head = words.drop_last();
        let k = words_lines(head).len() as int;
        assert forall|j: int| 0 <= j < k implies #[trigger] a[j] == b[j] by {}
        lemma_words_agree(head, a, b);
        let n = word_lines(words.last()).len() as int;
        assert(agree(a.skip(k), b.skip(k), n)) by {
            assert forall|j: int| 0 <= j < n implies #[trigger] a.skip(k)[j] == b.skip(k)[j] by {
                assert(a[k + j] == b[k + j]);
            }
        }
        lemma_word_agrees(words.last(), a.skip(k), b.skip(k));
    }
}

proof fn lemma_command_agrees(cmd: CommandView, a: Seq<Seq<char>>, b: Seq<Seq<char>>)
    requires
        agree(a, b, command_lines(cmd).len() as int),
    ensures
        filled_command(cmd, a) == filled_command(cmd, b),
{
    let k = words_lines(cmd.argv).len() as int;
    let targets = targets_of(cmd.redirects);
    let n = words_lines(targets).len() as int;
    assert(agree(a, b, k));
    lemma_words_agree(cmd.argv, a, b);
    assert(agree(a.skip(k), b.skip(k), n)) by {
        assert forall|j: int| 0 <= j < n implies #[trigger] a.skip(k)[j] == b.skip(k)[j] by {
            assert(a[k + j] == b[k + j]);
        }
    }
    lemma_words_agree(targets, a.skip(k), b.skip(k));
}

proof fn lemma_commands_agree(cmds: Seq<CommandView>, a: Seq<Seq<char>>, b: Seq<Seq<char>>)
    requires
        agree(a, b, commands_lines(cmds).len() as int),
    ensures
        filled_commands(cmds, a) == filled_commands(cmds, b),
    decreases cmds.len(),
{
    if cmds.len() > 0 {
        let head = cmds.drop_last();
        let k = commands_lines(head).len() as int;
        assert forall|j: int| 0 <= j < k implies #[trigger] a[j] == b[j] by {}
        lemma_commands_agree(head, a, b);
        let n = command_lines(cmds.last()).len() as int;
        assert(agree(a.skip(k), b.skip(k), n)) by {
            assert forall|j: int| 0 <= j < n implies #[trigger] a.skip(k)[j] == b.skip(k)[j] by {
                assert(a[k + j] == b[k + j]);
            }
        }
        lemma_command_agrees(cmds.last(), a.skip(k), b.skip(k));
    }
}

/// One more part of a word: a substitution, quoted or not, adds its line to what
/// there is to run and takes the next output, which is literal where it was
/// quoted; any other part stays.
pub proof fn law_substitutions_of_a_word(
    parts: Seq<PartView>,
    outs: Seq<Seq<char>>,
    line: Seq<char>,
    output: Seq<char>,
    other: PartView,
)
    requires
        outs.len() == word_lines(parts).len(),
        !(other is Subst),
        !(other is QSubst),
    ensures
        word_lines(parts.push(PartView::Subst(line))) == word_lines(parts).push(line),
        word_lines(parts.push(PartView::QSubst(line))) == word_lines(parts).push(line),
        word_lines(parts.push(other)) == word_lines(parts),
        word_lines(Seq::empty()) == Seq::<Seq<char>>::empty(),
        filled_word(parts.push(PartView::Subst(line)), outs.push(output)) == filled_word(
            parts,
            outs,
        ).push(PartView::SubstOut(output)),
        filled_word(parts.push(PartView::QSubst(line)), outs.push(output)) == filled_word(
            parts,
            outs,
        ).push(PartView::QLit(output)),
        filled_word(parts.push(other), outs) == filled_word(parts, outs).push(other),
        filled_word(Seq::empty(), outs) == Seq::<PartView>::empty(),
{
    assert(parts.push(PartView::Subst(line)).drop_last() =~= parts);
    assert(parts.push(PartView::QSubst(line)).drop_last() =~= parts);
    assert(parts.push(other).drop_last() =~= parts);
    assert(agree(outs, outs.push(output), outs.len() as int));
    lemma_word_agrees(parts, outs, outs.push(output));
}

/// One more word, or one more command: its substitutions come after those
/// before, and it takes the outputs that come after theirs.
pub proof fn law_substitutions_in_order(
    words: Seq<Seq<PartView>>,
    word: Seq<PartView>,
    cmds: Seq<CommandView>,
    cmd: CommandView,
    first: Seq<Seq<char>>,
    then: Seq<Seq<char>>,
)
    ensures
        words_lines(words.push(word)) == words_lines(words) + word_lines(word),
        words_lines(Seq::empty()) == Seq::<Seq<char>>::empty(),
        commands_lines(cmds.push(cmd)) == commands_lines(cmds) + command_lines(cmd),
        commands_lines(Seq::empty()) == Seq::<Seq<char>>::empty(),
        first.len() == words_lines(words).len() && then.len() == word_lines(word).len()
            ==> filled_words(words.push(word), first + then) == filled_words(words, first).push(
            filled_word(word, then),
        ),
        first.len() == commands_lines(cmds).len() && then.len() == command_lines(cmd).len()
            ==> filled_commands(cmds.push(cmd), first + then) == filled_commands(cmds, first).push(
            filled_command(cmd, then),
        ),
{
    assert(words.push(word).drop_last() =~= words);
    assert(cmds.push(cmd).drop_last() =~= cmds);
    let outs = first + then;
    let n = first.len() as int;
    assert(outs.skip(n) =~= then);
    assert(agree(outs, first, n));
    if n == words_lines(words).len() {
        lemma_words_agree(words, outs, first);
    }
    if n == commands_lines(cmds).len() {
        lemma_commands_agree(cmds, outs, first);
    }
}

/// The substitutions of a command's words come first, then those of its
/// redirects; a redirect keeps its kind and gets its own target filled.
pub proof fn law_substitutions_of_a_command(
    cmd: CommandView,
    first: Seq<Seq<char>>,
    then: Seq<Seq<char>>,
    targets: Seq<Seq<PartView>>,
    i: int,
)
    requires
        targets.len() == cmd.redirects.len(),
        forall|k: int|
            0 <= k < targets.len() ==> #[trigger] targets[k] == (match cmd.redirects[k] {
                RedirectView::In(target) => target,
                RedirectView::Out { target, .. } => target,
                RedirectView::ErrOut { target, .. } => target,
            }),
        first.len() == words_lines(cmd.argv).len(),
        then.len() == words_lines(targets).len(),
        0 <= i < cmd.redirects.len(),
    ensures
        command_lines(cmd) == words_lines(cmd.argv) + words_lines(targets),
        filled_command(cmd, first + then).argv == filled_words(cmd.argv, first),
        filled_command(cmd, first + then).redirects.len() == cmd.redirects.len(),
        filled_command(cmd, first + then).redirects[i] == (match cmd.redirects[i] {
            RedirectView::In(_) => RedirectView::In(filled_words(targets, then)[i]),
            RedirectView::Out { append, .. } => RedirectView::Out {
                target: filled_words(targets, then)[i],
                append,
            },
            RedirectView::ErrOut { append, .. } => RedirectView::ErrOut {
                target: filled_words(targets, then)[i],
                append,
            },
        }),
{
    assert(targets =~= targets_of(cmd.redirects));
    let outs = first + then;
    let n = first.len() as int;
    assert(outs.skip(n) =~= then);
    assert(agree(outs, first, n));
    lemma_words_agree(cmd.argv, outs, first);
}

/// Of the output all the newlines at the end go, and nothing else.
pub proof fn law_newlines_are_stripped(text: Seq<char>, newlines: Seq<char>)
    requires
        text.len() > 0 ==> text.last() != '\n',
        forall|k: int| 0 <= k < newlines.len() ==> newlines[k] == '\n',
    ensures
        without_newlines(text + newlines) == text,
    decreases newlines.len(),
{
    let all = text + newlines;
    if newlines.len() > 0 {
        assert(all.last() == newlines.last());
        assert(all.drop_last() =~= text + newlines.drop_last());
        law_newlines_are_stripped(text, newlines.drop_last());
    } else {
        assert(all =~= text);
    }
}

/// Captured output grows at its end: what is written first comes first.
pub proof fn law_output_is_appended(capture: Option<Vec<u8>>, a: Seq<u8>, b: Seq<u8>)
    ensures
        output_with(capture, a + b) == output_with(capture, a) + b,
        output_with(capture, Seq::empty()) == captured_bytes(capture),
        capture matches Some(bytes) ==> captured_bytes(capture) == bytes@,
        captured_bytes(None) == Seq::<u8>::empty(),
{
    assert(output_with(capture, a + b) =~= output_with(capture, a) + b);
    assert(output_with(capture, Seq::empty()) =~= captured_bytes(capture));
}

/// A substitution runs with the variables, the status, the history and the jobs
/// of the shell, and what it makes of them stays.
pub proof fn law_substitution_shares_the_shell(
    before: Shell,
    inside: Shell,
    aside: Aside,
    ran: Shell,
    after: Shell,
)
    requires
        set_aside(before, inside, aside),
        put_back(ran, aside, after),
    ensures
        inside.env == before.env,
        inside.last_status == before.last_status,
        inside.history == before.history,
        inside.jobs == before.jobs,
        !inside.should_exit,
        inside.capture is Some,
        captured_bytes(inside.capture).len() == 0,
        after.env == ran.env,
        after.last_status == ran.last_status,
        after.history == ran.history,
        after.jobs == ran.jobs,
{
}

} // verus!
