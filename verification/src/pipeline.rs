//! Running a pipeline: how it is run, where its stages read and write, and
//! what their outcomes come to.

use vstd::prelude::*;

use crate::arith::Vars;
use crate::builtins::{builtin_named, builtin_table, is_builtin, law_builtins_by_name};
use crate::expand::{
    argv_fields, can_find, expand_argv, expand_word, expanded_word, found_for, globbed, globs_to,
    FieldView, Found, Paths,
};
use crate::lexer::{Part, PartView};
use crate::parser::{
    command_views, redirect_views, word_views, Command, CommandView, Pipeline, PipelineView,
    Redirect, RedirectView,
};
use crate::pattern::GlobOptions;
use crate::shell::Shell;
use crate::text::{join_texts, joined, texts};

verus! {

// ---------------------------------------------------------------------------
// How a pipeline is run.

/// How a pipeline is run.
#[derive(Debug, Clone, Copy, PartialEq, Eq, Structural)]
pub enum Mode {
    /// Stage by stage, each stage's output kept in memory for the next.
    Buffered,
    /// All stages at once, connected by pipes, and waited for.
    Streaming,
    /// All stages at once, connected by pipes, and left alone.
    Detached,
    /// Not at all: a builtin cannot be detached.
    Rejected,
}

/// The mode of a pipeline of `stages` commands, where `bare` tells that no
/// command has words and `external` that every command's name is there and is
/// not that of a builtin. A background pipeline of bare redirects has nothing
/// to detach and runs like any other.
pub open spec fn mode_of(background: bool, stages: int, bare: bool, external: bool) -> Mode {
    if background && !bare {
        if external {
            Mode::Detached
        } else {
            Mode::Rejected
        }
    } else if stages > 1 && external {
        Mode::Streaming
    } else {
        Mode::Buffered
    }
}

/// The mode of a pipeline, from what is known of its commands.
pub fn pick_mode(background: bool, stages: usize, bare: bool, external: bool) -> (r: Mode)
    ensures
        r == mode_of(background, stages as int, bare, external),
{
    if background && !bare {
        if external {
            Mode::Detached
        } else {
            Mode::Rejected
        }
    } else if stages > 1 && external {
        Mode::Streaming
    } else {
        Mode::Buffered
    }
}

/// The status of a pipeline in a mode that starts nothing.
pub open spec fn unstarted(mode: Mode) -> Option<i32> {
    match mode {
        Mode::Rejected => Some(1),
        _ => None,
    }
}

/// The status of a pipeline in a mode that starts nothing: a background
/// pipeline that holds a builtin fails with 1.
pub fn unstarted_status(mode: Mode) -> (r: Option<i32>)
    ensures
        r == unstarted(mode),
{
    match mode {
        Mode::Rejected => Some(1),
        _ => None,
    }
}

/// The first word of a command, if it has one.
pub open spec fn head_word(cmd: CommandView) -> Seq<Seq<PartView>> {
    if cmd.argv.len() == 0 {
        Seq::empty()
    } else {
        seq![cmd.argv[0]]
    }
}

/// The name that a command's first word expanded to is there and is not that
/// of a builtin.
pub open spec fn names_external(names: Seq<Seq<char>>) -> bool {
    names.len() > 0 && builtin_named(names[0]) is None
}

/// Whether the name that a command's first word expanded to is there and is
/// not that of a builtin.
pub fn is_external_name(names: &[String]) -> (r: bool)
    ensures
        r == names_external(texts(names@)),
{
    proof {
        if names@.len() > 0 {
            assert(texts(names@)[0] == names@[0]@);
        }
    }
    names.len() > 0 && !is_builtin(names[0].as_str())
}

/// Whether the command's (expanded) name is not a builtin. Bare redirects
/// (empty argv) don't count.
pub fn is_external<F: Fn(&str, GlobOptions) -> Paths>(
    shell: &Shell,
    cmd: &Command,
    find: &F,
) -> (r: bool)
    requires
        can_find(*find),
    ensures
        exists|names: Seq<Seq<char>>|
            {
                &&& #[trigger] globs_to(
                    *find,
                    argv_fields(head_word(cmd@), shell.env@, shell.last_status),
                    names,
                )
                &&& r == names_external(names)
            },
{
    let mut head: Vec<Vec<Part>> = Vec::new();
    if cmd.argv.len() > 0 {
        head.push(crate::lexer::clone_parts(cmd.argv[0].as_slice()));
    }
    proof {
        assert(word_views(head@) =~= head_word(cmd@));
    }
    let names = expand_argv(head.as_slice(), &shell.env, shell.last_status, find);
    is_external_name(names.as_slice())
}

/// No command of the pipeline has words.
pub open spec fn is_bare(pipeline: PipelineView) -> bool {
    forall|i: int| 0 <= i < pipeline.cmds.len() ==> (#[trigger] pipeline.cmds[i]).argv.len() == 0
}

/// For each command, what its first word can expand to.
pub open spec fn expands_heads<F: Fn(&str, GlobOptions) -> Paths>(
    find: F,
    shell: Shell,
    cmds: Seq<CommandView>,
    names: Seq<Seq<Seq<char>>>,
) -> bool {
    &&& names.len() == cmds.len()
    &&& forall|i: int|
        0 <= i < cmds.len() ==> globs_to(
            find,
            argv_fields(head_word(cmds[i]), shell.env@, shell.last_status),
            #[trigger] names[i],
        )
}

/// Every name is there and is not that of a builtin.
pub open spec fn all_external(names: Seq<Seq<Seq<char>>>) -> bool {
    forall|i: int| 0 <= i < names.len() ==> names_external(#[trigger] names[i])
}

/// How a pipeline, its substitutions done, is run: all-external pipelines
/// stream or detach, others are run stage by stage.
pub fn pipeline_mode<F: Fn(&str, GlobOptions) -> Paths>(
    shell: &Shell,
    pipeline: &Pipeline,
    find: &F,
) -> (r: Mode)
    requires
        can_find(*find),
    ensures
        exists|names: Seq<Seq<Seq<char>>>|
            {
                &&& #[trigger] expands_heads(*find, *shell, pipeline@.cmds, names)
                &&& r == mode_of(
                    pipeline@.background,
                    pipeline@.cmds.len() as int,
                    is_bare(pipeline@),
                    all_external(names),
                )
            },
{
    let ghost cmds = pipeline@.cmds;
    let mut bare = true;
    let mut external = true;
    let ghost mut names: Seq<Seq<Seq<char>>> = Seq::empty();
    let mut i: usize = 0;
    while i < pipeline.cmds.len()
        invariant
            can_find(*find),
            cmds == command_views(pipeline.cmds@),
            i <= pipeline.cmds@.len(),
            names.len() == i,
            bare == (forall|k: int| 0 <= k < i ==> (#[trigger] cmds[k]).argv.len() == 0),
            external == all_external(names),
            forall|k: int|
                0 <= k < i ==> globs_to(
                    *find,
                    argv_fields(head_word(cmds[k]), shell.env@, shell.last_status),
                    #[trigger] names[k],
                ),
        decreases pipeline.cmds.len() - i,
    {
        let cmd = &pipeline.cmds[i];
        proof {
            assert(cmds[i as int] == cmd@);
        }
        if cmd.argv.len() > 0 {
            bare = false;
        }
        let here = is_external(shell, cmd, find);
        if !here {
            external = false;
        }
        proof {
            let found = choose|found: Seq<Seq<char>>|
                {
                    &&& #[trigger] globs_to(
                        *find,
                        argv_fields(head_word(cmd@), shell.env@, shell.last_status),
                        found,
                    )
                    &&& here == names_external(found)
                };
            let before = names;
            names = names.push(found);
            assert(names[i as int] == found);
            assert forall|k: int| 0 <= k < i implies #[trigger] names[k] == before[k] by {}
            if all_external(before) && here {
                assert forall|k: int| 0 <= k < names.len() implies names_external(
                    #[trigger] names[k],
                ) by {
                    if k < i {
                        assert(names_external(before[k]));
                    }
                }
            }
            if all_external(names) {
                assert forall|k: int| 0 <= k < before.len() implies names_external(
                    #[trigger] before[k],
                ) by {
                    assert(names_external(names[k]));
                }
                assert(names_external(names[i as int]));
            }
        }
        i += 1;
    }
    proof {
        assert(expands_heads(*find, *shell, cmds, names));
        assert(bare == is_bare(pipeline@));
    }
    pick_mode(pipeline.background, pipeline.cmds.len(), bare, external)
}

// ---------------------------------------------------------------------------
// Labels.

/// The label of a pipeline whose commands expanded to `argvs`: words joined by
/// spaces, stages by ` | `.
pub open spec fn label_text(argvs: Seq<Seq<Seq<char>>>) -> Seq<char> {
    joined(Seq::new(argvs.len(), |i: int| joined(argvs[i], " "@)), " | "@)
}

/// For each command, what its words can expand to.
pub open spec fn expands_to<F: Fn(&str, GlobOptions) -> Paths>(
    find: F,
    shell: Shell,
    cmds: Seq<CommandView>,
    argvs: Seq<Seq<Seq<char>>>,
) -> bool {
    &&& argvs.len() == cmds.len()
    &&& forall|i: int|
        0 <= i < cmds.len() ==> globs_to(
            find,
            argv_fields(cmds[i].argv, shell.env@, shell.last_status),
            #[trigger] argvs[i],
        )
}

/// The texts of a list of argument lists.
pub open spec fn argv_texts(v: Seq<Vec<String>>) -> Seq<Seq<Seq<char>>> {
    Seq::new(v.len(), |i: int| texts(v[i]@))
}

/// The label of a pipeline whose commands expanded to `argvs`.
pub fn label_of(argvs: &[Vec<String>]) -> (r: String)
    ensures
        r@ == label_text(argv_texts(argvs@)),
{
    let ghost all = argv_texts(argvs@);
    let ghost stages = Seq::new(all.len(), |i: int| joined(all[i], " "@));
    let mut parts: Vec<String> = Vec::new();
    let mut i: usize = 0;
    while i < argvs.len()
        invariant
            all == argv_texts(argvs@),
            stages == Seq::new(all.len(), |i: int| joined(all[i], " "@)),
            i <= argvs@.len(),
            parts@.len() == i,
            forall|k: int| 0 <= k < i ==> (#[trigger] parts@[k])@ == stages[k],
        decreases argvs.len() - i,
    {
        let text = join_texts(argvs[i].as_slice(), " ");
        parts.push(text);
        i += 1;
    }
    proof {
        assert(texts(parts@) =~= stages);
    }
    join_texts(parts.as_slice(), " | ")
}

/// Display label of a pipeline for the job table: expanded argv words
/// joined by spaces, stages by ` | `.
pub fn pipeline_label<F: Fn(&str, GlobOptions) -> Paths>(
    shell: &Shell,
    pipeline: &Pipeline,
    find: &F,
) -> (r: String)
    requires
        can_find(*find),
    ensures
        exists|argvs: Seq<Seq<Seq<char>>>|
            #[trigger] expands_to(*find, *shell, pipeline@.cmds, argvs) && r@ == label_text(argvs),
{
    let ghost cmds = pipeline@.cmds;
    let mut argvs: Vec<Vec<String>> = Vec::new();
    let mut i: usize = 0;
    while i < pipeline.cmds.len()
        invariant
            can_find(*find),
            cmds == command_views(pipeline.cmds@),
            i <= pipeline.cmds@.len(),
            argvs@.len() == i,
            forall|k: int|
                0 <= k < i ==> globs_to(
                    *find,
                    argv_fields(cmds[k].argv, shell.env@, shell.last_status),
                    texts(#[trigger] argvs@[k]@),
                ),
        decreases pipeline.cmds.len() - i,
    {
        let cmd = &pipeline.cmds[i];
        proof {
            assert(cmds[i as int] == cmd@);
        }
        argvs.push(expand_argv(cmd.argv.as_slice(), &shell.env, shell.last_status, find));
        i += 1;
    }
    proof {
        let all = argv_texts(argvs@);
        assert forall|k: int| 0 <= k < cmds.len() implies globs_to(
            *find,
            argv_fields(cmds[k].argv, shell.env@, shell.last_status),
            #[trigger] all[k],
        ) by {
            assert(all[k] == texts(argvs@[k]@));
        }
        assert(expands_to(*find, *shell, cmds, all));
    }
    label_of(argvs.as_slice())
}

// ---------------------------------------------------------------------------
// Redirects.

/// Where a command's stdout should go.
pub enum StdoutTarget {
    /// Inherit the shell's stdout.
    Inherit,
    /// Capture into a buffer (feeds the next pipeline stage).
    Capture,
    /// Write to a file.
    File { path: String, append: bool },
}

/// Redirects of one pipeline stage after word expansion.
pub struct StageRedirects {
    pub out: StdoutTarget,
    pub err: Option<(String, bool)>,
    pub input: Option<String>,
}

/// Model of [`StdoutTarget`].
pub enum StdoutTargetView {
    Inherit,
    Capture,
    File { path: Seq<char>, append: bool },
}

/// Model of [`StageRedirects`].
pub struct StageRedirectsView {
    pub out: StdoutTargetView,
    pub err: Option<(Seq<char>, bool)>,
    pub input: Option<Seq<char>>,
}

impl View for StdoutTarget {
    type V = StdoutTargetView;

    open spec fn view(&self) -> StdoutTargetView {
        match self {
            StdoutTarget::Inherit => StdoutTargetView::Inherit,
            StdoutTarget::Capture => StdoutTargetView::Capture,
            StdoutTarget::File { path, append } => StdoutTargetView::File {
                path: path@,
                append: *append,
            },
        }
    }
}

impl View for StageRedirects {
    type V = StageRedirectsView;

    open spec fn view(&self) -> StageRedirectsView {
        StageRedirectsView {
            out: self.out@,
            err: match self.err {
                Some((path, append)) => Some((path@, append)),
                None => None,
            },
            input: match self.input {
                Some(path) => Some(path@),
                None => None,
            },
        }
    }
}

/// Where a stage reads and writes without redirects: the last stage writes to
/// the terminal, the others to the next stage.
pub open spec fn plain_redirects(last: bool) -> StageRedirectsView {
    StageRedirectsView {
        out: if last {
            StdoutTargetView::Inherit
        } else {
            StdoutTargetView::Capture
        },
        err: None,
        input: None,
    }
}

/// `state` after one more redirect.
pub open spec fn redirected(
    state: StageRedirectsView,
    redirect: RedirectView,
    vars: Vars,
    last_status: i32,
) -> StageRedirectsView {
    match redirect {
        RedirectView::In(target) => StageRedirectsView {
            input: Some(expanded_word(target, vars, last_status)),
            ..state
        },
        RedirectView::Out { target, append } => StageRedirectsView {
            out: StdoutTargetView::File { path: expanded_word(target, vars, last_status), append },
            ..state
        },
        RedirectView::ErrOut { target, append } => StageRedirectsView {
            err: Some((expanded_word(target, vars, last_status), append)),
            ..state
        },
    }
}

/// Where a stage with `redirects` reads and writes: for each of input, output
/// and errors the last redirect wins.
pub open spec fn stage_redirects(
    redirects: Seq<RedirectView>,
    vars: Vars,
    last_status: i32,
    last: bool,
) -> StageRedirectsView
    decreases redirects.len(),
{
    if redirects.len() == 0 {
        plain_redirects(last)
    } else {
        redirected(
            stage_redirects(redirects.drop_last(), vars, last_status, last),
            redirects.last(),
            vars,
            last_status,
        )
    }
}

/// Where a stage reads and writes.
pub fn resolve_redirects(shell: &Shell, cmd: &Command, last: bool) -> (r: StageRedirects)
    ensures
        r@ == stage_redirects(cmd@.redirects, shell.env@, shell.last_status, last),
{
    let ghost all = cmd@.redirects;
    let ghost vars = shell.env@;
    let ghost status = shell.last_status;
    let mut r = StageRedirects {
        out: if last {
            StdoutTarget::Inherit
        } else {
            StdoutTarget::Capture
        },
        err: None,
        input: None,
    };
    let mut i: usize = 0;
    while i < cmd.redirects.len()
        invariant
            all == redirect_views(cmd.redirects@),
            vars == shell.env@,
            status == shell.last_status,
            i <= cmd.redirects@.len(),
            r@ == stage_redirects(all.take(i as int), vars, status, last),
        decreases cmd.redirects.len() - i,
    {
        proof {
            assert(all.take(i + 1).drop_last() =~= all.take(i as int));
            assert(all.take(i + 1).last() == cmd.redirects@[i as int]@);
        }
        match &cmd.redirects[i] {
            Redirect::In(target) => {
                r.input = Some(expand_word(target.as_slice(), &shell.env, shell.last_status));
            },
            Redirect::Out { target, append } => {
                r.out = StdoutTarget::File {
                    path: expand_word(target.as_slice(), &shell.env, shell.last_status),
                    append: *append,
                };
            },
            Redirect::ErrOut { target, append } => {
                r.err = Some(
                    (expand_word(target.as_slice(), &shell.env, shell.last_status), *append),
                );
            },
        }
        i += 1;
    }
    proof {
        assert(all.take(all.len() as int) =~= all);
    }
    r
}

// ---------------------------------------------------------------------------
// Running stage by stage.

/// What one stage of a pipeline is.
#[derive(Debug, Clone, Copy, PartialEq, Eq, Structural)]
pub enum StageKind {
    /// Bare redirects: the files are created or truncated.
    Touch,
    Builtin,
    External,
}

/// What a stage is whose words expanded to `argv`.
pub open spec fn kind_of_stage(argv: Seq<Seq<char>>) -> StageKind {
    if argv.len() == 0 {
        StageKind::Touch
    } else if builtin_named(argv[0]) is Some {
        StageKind::Builtin
    } else {
        StageKind::External
    }
}

/// What a stage is whose words expanded to `argv`.
pub fn stage_kind(argv: &[String]) -> (r: StageKind)
    ensures
        r == kind_of_stage(texts(argv@)),
{
    if argv.len() == 0 {
        StageKind::Touch
    } else {
        proof {
            assert(texts(argv@)[0] == argv@[0]@);
        }
        if is_builtin(argv[0].as_str()) {
            StageKind::Builtin
        } else {
            StageKind::External
        }
    }
}

/// The status of a stage without a command: 0 where both files were opened.
pub open spec fn touched_status(out_opened: bool, err_opened: bool) -> int {
    if out_opened && err_opened {
        0
    } else {
        1
    }
}

/// The status of a stage without a command: 1 where a file could not be
/// opened.
pub fn touch_status(out_opened: bool, err_opened: bool) -> (r: i32)
    ensures
        r == touched_status(out_opened, err_opened),
        r == if out_opened && err_opened {
            0int
        } else {
            1int
        },
{
    if out_opened && err_opened {
        0
    } else {
        1
    }
}

/// A pipeline that is run stage by stage.
pub struct StageRun {
    /// The stage to run next.
    pub index: usize,
    /// The output that the next external stage reads.
    pub stdin_data: Option<Vec<u8>>,
    /// The status so far.
    pub status: i32,
    /// No stage is run any more.
    pub done: bool,
}

/// Model of [`StageRun`].
pub struct StageRunView {
    pub index: int,
    pub stdin_data: Option<Seq<u8>>,
    pub status: i32,
    pub done: bool,
}

/// The bytes, if there are any.
pub open spec fn bytes_view(bytes: Option<Vec<u8>>) -> Option<Seq<u8>> {
    match bytes {
        Some(bytes) => Some(bytes@),
        None => None,
    }
}

impl View for StageRun {
    type V = StageRunView;

    open spec fn view(&self) -> StageRunView {
        StageRunView {
            index: self.index as int,
            stdin_data: bytes_view(self.stdin_data),
            status: self.status,
            done: self.done,
        }
    }
}

/// What happened to a stage.
pub enum StageEvent {
    /// The files of a bare redirect were opened, or could not all be.
    Touched { status: i32 },
    /// A builtin came to `status` and wrote `output`.
    Builtin { status: i32, output: Vec<u8> },
    /// An external command came to `status`; its output, if it was captured.
    External { status: i32, captured: Option<Vec<u8>> },
    /// An external command could not be run.
    Failed { status: i32 },
}

/// Model of [`StageEvent`].
pub enum StageEventView {
    Touched { status: i32 },
    Builtin { status: i32, output: Seq<u8> },
    External { status: i32, captured: Option<Seq<u8>> },
    Failed { status: i32 },
}

impl View for StageEvent {
    type V = StageEventView;

    open spec fn view(&self) -> StageEventView {
        match self {
            StageEvent::Touched { status } => StageEventView::Touched { status: *status },
            StageEvent::Builtin { status, output } => StageEventView::Builtin {
                status: *status,
                output: output@,
            },
            StageEvent::External { status, captured } => StageEventView::External {
                status: *status,
                captured: bytes_view(*captured),
            },
            StageEvent::Failed { status } => StageEventView::Failed { status: *status },
        }
    }
}

/// Where the output of a stage has to go.
pub enum Output {
    /// Nowhere.
    Nothing,
    /// To the terminal, or to the capture buffer of a substitution.
    Terminal(Vec<u8>),
    /// To the file that the stage's output is redirected to; where it cannot
    /// be opened, the status becomes 1.
    File(Vec<u8>),
}

/// Model of [`Output`].
pub enum OutputView {
    Nothing,
    Terminal(Seq<u8>),
    File(Seq<u8>),
}

impl View for Output {
    type V = OutputView;

    open spec fn view(&self) -> OutputView {
        match self {
            Output::Nothing => OutputView::Nothing,
            Output::Terminal(bytes) => OutputView::Terminal(bytes@),
            Output::File(bytes) => OutputView::File(bytes@),
        }
    }
}

/// The run after a stage with the output target `out` met `event`, in a
/// pipeline of `count` stages; `exiting` tells that the shell is to exit. Its
/// input is used up by an external stage only.
pub open spec fn stage_done(
    run: StageRunView,
    count: int,
    out: StdoutTargetView,
    event: StageEventView,
    exiting: bool,
) -> StageRunView {
    let last = run.index + 1 == count;
    match event {
        StageEventView::Touched { status } => StageRunView {
            index: run.index + 1,
            status,
            done: last,
            ..run
        },
        StageEventView::Builtin { status, output } => StageRunView {
            index: run.index + 1,
            stdin_data: if out is Capture {
                Some(output)
            } else {
                run.stdin_data
            },
            status,
            done: last || exiting,
        },
        StageEventView::External { status, captured } => StageRunView {
            index: run.index + 1,
            stdin_data: if last {
                None
            } else {
                captured
            },
            status,
            done: last || exiting,
        },
        StageEventView::Failed { status } => StageRunView {
            index: run.index + 1,
            stdin_data: None,
            status,
            done: true,
        },
    }
}

/// Where the output of the stage has to go.
pub open spec fn stage_output(
    run: StageRunView,
    count: int,
    out: StdoutTargetView,
    event: StageEventView,
) -> OutputView {
    match event {
        StageEventView::Builtin { output, .. } => match out {
            StdoutTargetView::Inherit => OutputView::Terminal(output),
            StdoutTargetView::Capture => OutputView::Nothing,
            StdoutTargetView::File { .. } => OutputView::File(output),
        },
        // Under substitution capture the last stage's stdout was piped
        // instead of inherited.
        StageEventView::External { captured, .. } => if run.index + 1 == count {
            match captured {
                Some(bytes) => OutputView::Terminal(bytes),
                None => OutputView::Nothing,
            }
        } else {
            OutputView::Nothing
        },
        _ => OutputView::Nothing,
    }
}

impl StageRun {
    /// At the first stage.
    pub fn new() -> (r: StageRun)
        ensures
            r@ == (StageRunView { index: 0, stdin_data: None, status: 0, done: false }),
    {
        StageRun { index: 0, stdin_data: None, status: 0, done: false }
    }

    /// Take the input of an external stage out.
    pub fn take_input(&mut self) -> (r: Option<Vec<u8>>)
        ensures
            bytes_view(r) == old(self)@.stdin_data,
            final(self)@ == (StageRunView { stdin_data: None, ..old(self)@ }),
    {
        self.stdin_data.take()
    }

    /// The stage, whose output target is `out`, met `event`. Returns where its
    /// output has to go.
    pub fn finish_stage(
        &mut self,
        count: usize,
        out: &StdoutTarget,
        event: StageEvent,
        exiting: bool,
    ) -> (r: Output)
        requires
            old(self).index < count,
        ensures
            final(self)@ == stage_done(old(self)@, count as int, out@, event@, exiting),
            r@ == stage_output(old(self)@, count as int, out@, event@),
    {
        let last = self.index + 1 == count;
        self.index = self.index + 1;
        match event {
            StageEvent::Touched { status } => {
                self.status = status;
                self.done = last;
                Output::Nothing
            },
            StageEvent::Builtin { status, output } => {
                self.status = status;
                self.done = last || exiting;
                match out {
                    StdoutTarget::Inherit => Output::Terminal(output),
                    StdoutTarget::Capture => {
                        self.stdin_data = Some(output);
                        Output::Nothing
                    },
                    StdoutTarget::File { .. } => Output::File(output),
                }
            },
            StageEvent::External { status, captured } => {
                self.status = status;
                self.done = last || exiting;
                if last {
                    self.stdin_data = None;
                    match captured {
                        Some(bytes) => Output::Terminal(bytes),
                        None => Output::Nothing,
                    }
                } else {
                    self.stdin_data = captured;
                    Output::Nothing
                }
            },
            StageEvent::Failed { status } => {
                self.status = status;
                self.stdin_data = None;
                self.done = true;
                Output::Nothing
            },
        }
    }

    /// The file that a builtin's output is redirected to could not be opened.
    pub fn output_lost(&mut self)
        ensures
            final(self)@ == (StageRunView { status: 1, ..old(self)@ }),
    {
        self.status = 1;
    }
}

// ---------------------------------------------------------------------------
// External commands.

/// Where an external command reads from.
#[derive(Debug, Clone, Copy, PartialEq, Eq, Structural)]
pub enum Source {
    /// The file that its input is redirected from.
    File,
    /// The output of the stage before it.
    Previous,
    Terminal,
}

/// Where an external command writes to.
#[derive(Debug, Clone, Copy, PartialEq, Eq, Structural)]
pub enum Sink {
    /// The file that its output is redirected to.
    File,
    /// The next stage.
    Next,
    /// The buffer of a command substitution.
    Buffer,
    Terminal,
}

/// Where a command reads from: a redirect wins over the stage before it.
pub open spec fn source_of(redirects: StageRedirectsView, has_previous: bool) -> Source {
    if redirects.input is Some {
        Source::File
    } else if has_previous {
        Source::Previous
    } else {
        Source::Terminal
    }
}

/// Where a command writes to. During command substitution the terminal is
/// replaced by a buffer.
pub open spec fn sink_of(redirects: StageRedirectsView, capturing: bool) -> Sink {
    match redirects.out {
        StdoutTargetView::File { .. } => Sink::File,
        StdoutTargetView::Capture => Sink::Next,
        StdoutTargetView::Inherit => if capturing {
            Sink::Buffer
        } else {
            Sink::Terminal
        },
    }
}

/// Where a command reads from.
pub fn pick_source(redirects: &StageRedirects, has_previous: bool) -> (r: Source)
    ensures
        r == source_of(redirects@, has_previous),
{
    if redirects.input.is_some() {
        Source::File
    } else if has_previous {
        Source::Previous
    } else {
        Source::Terminal
    }
}

/// Where a command writes to.
pub fn pick_sink(redirects: &StageRedirects, capturing: bool) -> (r: Sink)
    ensures
        r == sink_of(redirects@, capturing),
{
    match &redirects.out {
        StdoutTarget::File { .. } => Sink::File,
        StdoutTarget::Capture => Sink::Next,
        StdoutTarget::Inherit => if capturing {
            Sink::Buffer
        } else {
            Sink::Terminal
        },
    }
}

/// Why an external command could not be started.
#[derive(Debug, Clone, Copy, PartialEq, Eq, Structural)]
pub enum StartError {
    /// A file of a redirect could not be opened.
    Redirect,
    /// There is no such command.
    NotFound,
    /// The command could not be run.
    Other,
}

/// The status of a command that could not be started.
pub open spec fn start_error_status(error: StartError) -> int {
    match error {
        StartError::NotFound => 127,
        _ => 1,
    }
}

/// The status of a command that could not be started.
pub fn start_status(error: StartError) -> (r: i32)
    ensures
        r == start_error_status(error),
{
    match error {
        StartError::NotFound => 127,
        _ => 1,
    }
}

/// The stages of a pipeline that run at once: their pids, and the process
/// group that they share (0 before the first one).
pub struct Spawning {
    pub pids: Vec<i32>,
    pub group: i32,
    /// The last stage that was started writes into a pipe for the next one.
    pub piped: bool,
}

impl Spawning {
    /// The group is that of the first stage, and no pid is 0.
    pub open spec fn wf(self) -> bool {
        &&& self.pids@.len() == 0 ==> self.group == 0 && !self.piped
        &&& self.pids@.len() > 0 ==> self.group == self.pids@[0] && self.group != 0
    }

    pub fn new() -> (r: Spawning)
        ensures
            r.wf(),
            r.pids@.len() == 0,
    {
        Spawning { pids: Vec::new(), group: 0, piped: false }
    }

    /// Where the next stage reads from; its process group is `group`. The pipe
    /// from the stage before is taken up only where the stage reads from it.
    pub fn next_source(&mut self, redirects: &StageRedirects) -> (r: Source)
        requires
            old(self).wf(),
        ensures
            final(self).wf(),
            r == source_of(redirects@, old(self).piped),
            final(self).pids == old(self).pids,
            final(self).group == old(self).group,
            final(self).piped == (old(self).piped && !(r is Previous)),
    {
        let source = pick_source(redirects, self.piped);
        if let Source::Previous = source {
            self.piped = false;
        }
        source
    }

    /// The next stage was started with the process id `pid` and writes to
    /// `sink`. It joins the pipeline's group, which the first stage founds.
    pub fn started(&mut self, pid: i32, sink: Sink)
        requires
            old(self).wf(),
            pid != 0,
        ensures
            final(self).wf(),
            final(self).pids@ == old(self).pids@.push(pid),
            final(self).group == if old(self).group == 0 {
                pid
            } else {
                old(self).group
            },
            final(self).piped == (old(self).piped || sink is Next),
    {
        if self.group == 0 {
            self.group = pid;
        }
        if let Sink::Next = sink {
            self.piped = true;
        }
        self.pids.push(pid);
    }

    /// The next stage could not be started: no later one is either, and those
    /// that run have to be killed. Returns the status of the pipeline and the
    /// pids of the stages to kill, in the order in which they were started.
    pub fn failed(self, error: StartError) -> (r: (i32, Vec<i32>))
        requires
            self.wf(),
        ensures
            r.0 == start_error_status(error),
            r.1@ == self.pids@,
    {
        (start_status(error), self.pids)
    }
}

// ---------------------------------------------------------------------------
// Laws.

/// A background pipeline with a builtin in it starts nothing and fails with 1;
/// every other pipeline is started.
pub proof fn law_background_builtins_fail(
    background: bool,
    stages: int,
    bare: bool,
    external: bool,
)
    ensures
        unstarted(mode_of(background, stages, bare, external)) == if background && !bare
            && !external {
            Some(1i32)
        } else {
            None
        },
{
}

/// A builtin never leaves the shell's process: a pipeline with one in it is
/// neither streamed nor detached.
pub proof fn law_builtins_stay(background: bool, stages: int, bare: bool)
    ensures
        mode_of(background, stages, bare, false) is Buffered || mode_of(
            background,
            stages,
            bare,
            false,
        ) is Rejected,
{
}

/// Each stage that ends moves the run on, and a run ends after its last stage.
pub proof fn law_stages_end(
    run: StageRunView,
    count: int,
    out: StdoutTargetView,
    event: StageEventView,
    exiting: bool,
)
    requires
        0 <= run.index < count,
    ensures
        stage_done(run, count, out, event, exiting).index == run.index + 1,
        run.index + 1 == count ==> stage_done(run, count, out, event, exiting).done,
{
}

/// The output of a stage that feeds the next one is what the next external
/// stage reads, and it goes nowhere else.
pub proof fn law_output_feeds_the_next_stage(
    run: StageRunView,
    count: int,
    status: i32,
    output: Seq<u8>,
)
    requires
        0 <= run.index,
        run.index + 1 < count,
    ensures
        ({
            let event = StageEventView::Builtin { status, output };
            let out = StdoutTargetView::Capture;
            &&& stage_done(run, count, out, event, false).stdin_data == Some(output)
            &&& stage_output(run, count, out, event) is Nothing
        }),
        ({
            let event = StageEventView::External { status, captured: Some(output) };
            let out = StdoutTargetView::Capture;
            &&& stage_done(run, count, out, event, false).stdin_data == Some(output)
            &&& stage_output(run, count, out, event) is Nothing
        }),
{
}

/// A command whose first word has fields expands to at least one word: looking
/// for paths never makes a word disappear.
pub proof fn law_fields_never_vanish<F: Fn(&str, GlobOptions) -> Paths>(
    find: F,
    fields: Seq<FieldView>,
    out: Seq<Seq<char>>,
)
    requires
        globs_to(find, fields, out),
    ensures
        out.len() >= fields.len(),
{
    let founds = choose|founds: Seq<Found>|
        {
            &&& founds.len() == fields.len()
            &&& forall|i: int|
                0 <= i < fields.len() ==> found_for(find, fields[i], #[trigger] founds[i])
            &&& out == #[trigger] globbed(fields, founds)
        };
    lemma_globbed_len(fields, founds);
}

proof fn lemma_globbed_len(fields: Seq<FieldView>, founds: Seq<Found>)
    requires
        founds.len() == fields.len(),
    ensures
        globbed(fields, founds).len() >= fields.len(),
    decreases fields.len(),
{
    if fields.len() > 0 {
        lemma_globbed_len(fields.drop_last(), founds.drop_last());
        if let Some(paths) = founds.last() {
            crate::order::lemma_sorted_len(crate::expand::readable(paths));
        }
    }
}

/// The last redirect of a kind wins.
pub proof fn law_last_redirect_wins(
    redirects: Seq<RedirectView>,
    target: Seq<PartView>,
    append: bool,
    vars: Vars,
    last_status: i32,
    last: bool,
)
    ensures
        stage_redirects(
            redirects.push(RedirectView::Out { target, append }),
            vars,
            last_status,
            last,
        ).out == (StdoutTargetView::File {
            path: expanded_word(target, vars, last_status),
            append,
        }),
        stage_redirects(
            redirects.push(RedirectView::ErrOut { target, append }),
            vars,
            last_status,
            last,
        ).err == Some((expanded_word(target, vars, last_status), append)),
        stage_redirects(
            redirects.push(RedirectView::In(target)),
            vars,
            last_status,
            last,
        ).input == Some(expanded_word(target, vars, last_status)),
{
    let a = redirects.push(RedirectView::Out { target, append });
    let b = redirects.push(RedirectView::ErrOut { target, append });
    let c = redirects.push(RedirectView::In(target));
    assert(a.drop_last() =~= redirects);
    assert(b.drop_last() =~= redirects);
    assert(c.drop_last() =~= redirects);
}

/// A redirect decides about one of input, output and errors only: adding it
/// leaves the two others as they were.
pub proof fn law_redirects_are_independent(
    redirects: Seq<RedirectView>,
    target: Seq<PartView>,
    append: bool,
    vars: Vars,
    last_status: i32,
    last: bool,
)
    ensures
        ({
            let before = stage_redirects(redirects, vars, last_status, last);
            let with = |redirect: RedirectView|
                stage_redirects(redirects.push(redirect), vars, last_status, last);
            let out = with(RedirectView::Out { target, append });
            let err = with(RedirectView::ErrOut { target, append });
            let input = with(RedirectView::In(target));
            &&& out.err == before.err && out.input == before.input
            &&& err.out == before.out && err.input == before.input
            &&& input.out == before.out && input.err == before.err
        }),
{
    let a = redirects.push(RedirectView::Out { target, append });
    let b = redirects.push(RedirectView::ErrOut { target, append });
    let c = redirects.push(RedirectView::In(target));
    assert(a.drop_last() =~= redirects);
    assert(b.drop_last() =~= redirects);
    assert(c.drop_last() =~= redirects);
}

/// The last output redirect of a command, wherever it stands, decides where the
/// output goes; without one it goes to the terminal from the last stage and to
/// the next stage from any other.
pub proof fn law_last_output_redirect_decides(
    redirects: Seq<RedirectView>,
    k: int,
    vars: Vars,
    last_status: i32,
    last: bool,
)
    requires
        -1 <= k < redirects.len(),
        k >= 0 ==> redirects[k] is Out,
        forall|j: int| k < j < redirects.len() ==> !(#[trigger] redirects[j] is Out),
    ensures
        ({
            let out = stage_redirects(redirects, vars, last_status, last).out;
            &&& k < 0 && last ==> out is Inherit
            &&& k < 0 && !last ==> out is Capture
            &&& k >= 0 ==> out == (StdoutTargetView::File {
                path: expanded_word(redirects[k]->Out_target, vars, last_status),
                append: redirects[k]->Out_append,
            })
        }),
    decreases redirects.len(),
{
    if redirects.len() > 0 && k < redirects.len() - 1 {
        let head = redirects.drop_last();
        assert(!(redirects[redirects.len() - 1] is Out));
        assert forall|j: int| k < j < head.len() implies !(#[trigger] head[j] is Out) by {
            assert(!(redirects[j] is Out));
        }
        law_last_output_redirect_decides(head, k, vars, last_status, last);
    }
}

/// The last error redirect of a command, wherever it stands, decides where the
/// errors go; without one they go to the terminal.
pub proof fn law_last_error_redirect_decides(
    redirects: Seq<RedirectView>,
    k: int,
    vars: Vars,
    last_status: i32,
    last: bool,
)
    requires
        -1 <= k < redirects.len(),
        k >= 0 ==> redirects[k] is ErrOut,
        forall|j: int| k < j < redirects.len() ==> !(#[trigger] redirects[j] is ErrOut),
    ensures
        stage_redirects(redirects, vars, last_status, last).err == if k < 0 {
            None
        } else {
            Some(
                (
                    expanded_word(redirects[k]->ErrOut_target, vars, last_status),
                    redirects[k]->ErrOut_append,
                ),
            )
        },
    decreases redirects.len(),
{
    if redirects.len() > 0 && k < redirects.len() - 1 {
        let head = redirects.drop_last();
        assert(!(redirects[redirects.len() - 1] is ErrOut));
        assert forall|j: int| k < j < head.len() implies !(#[trigger] head[j] is ErrOut) by {
            assert(!(redirects[j] is ErrOut));
        }
        law_last_error_redirect_decides(head, k, vars, last_status, last);
    }
}

/// The last input redirect of a command, wherever it stands, decides what it
/// reads.
pub proof fn law_last_input_redirect_decides(
    redirects: Seq<RedirectView>,
    k: int,
    vars: Vars,
    last_status: i32,
    last: bool,
)
    requires
        -1 <= k < redirects.len(),
        k >= 0 ==> redirects[k] is In,
        forall|j: int| k < j < redirects.len() ==> !(#[trigger] redirects[j] is In),
    ensures
        stage_redirects(redirects, vars, last_status, last).input == if k < 0 {
            None
        } else {
            Some(expanded_word(redirects[k]->In_0, vars, last_status))
        },
    decreases redirects.len(),
{
    if redirects.len() > 0 && k < redirects.len() - 1 {
        let head = redirects.drop_last();
        assert(!(redirects[redirects.len() - 1] is In));
        assert forall|j: int| k < j < head.len() implies !(#[trigger] head[j] is In) by {
            assert(!(redirects[j] is In));
        }
        law_last_input_redirect_decides(head, k, vars, last_status, last);
    }
}

/// Some redirect of the command is one of its output.
pub open spec fn has_output_redirect(redirects: Seq<RedirectView>) -> bool {
    exists|k: int| 0 <= k < redirects.len() && #[trigger] redirects[k] is Out
}

/// Some redirect of the command is one of its input.
pub open spec fn has_input_redirect(redirects: Seq<RedirectView>) -> bool {
    exists|k: int| 0 <= k < redirects.len() && #[trigger] redirects[k] is In
}

/// Where a stage reads and writes: redirects win; otherwise a stage reads what
/// the stage before it wrote, or the terminal, and writes to the next stage, or
/// from the last stage to the terminal, which a substitution replaces by its
/// buffer.
pub proof fn law_stages_are_connected(
    redirects: Seq<RedirectView>,
    vars: Vars,
    last_status: i32,
    last: bool,
    has_previous: bool,
    capturing: bool,
)
    ensures
        ({
            let state = stage_redirects(redirects, vars, last_status, last);
            let sink = sink_of(state, capturing);
            let source = source_of(state, has_previous);
            &&& sink is File <==> has_output_redirect(redirects)
            &&& !has_output_redirect(redirects) && !last ==> sink is Next
            &&& !has_output_redirect(redirects) && last && capturing ==> sink is Buffer
            &&& !has_output_redirect(redirects) && last && !capturing ==> sink is Terminal
            &&& source is File <==> has_input_redirect(redirects)
            &&& !has_input_redirect(redirects) && has_previous ==> source is Previous
            &&& !has_input_redirect(redirects) && !has_previous ==> source is Terminal
        }),
{
    let k = lemma_last_redirect(redirects, |r: RedirectView| r is Out);
    let j = lemma_last_redirect(redirects, |r: RedirectView| r is In);
    law_last_output_redirect_decides(redirects, k, vars, last_status, last);
    law_last_input_redirect_decides(redirects, j, vars, last_status, last);
}

proof fn lemma_last_redirect(
    redirects: Seq<RedirectView>,
    kind: spec_fn(RedirectView) -> bool,
) -> (k: int)
    ensures
        -1 <= k < redirects.len(),
        k >= 0 ==> kind(redirects[k]),
        forall|j: int| k < j < redirects.len() ==> !kind(#[trigger] redirects[j]),
    decreases redirects.len(),
{
    if redirects.len() == 0 {
        -1
    } else if kind(redirects.last()) {
        redirects.len() - 1
    } else {
        let k = lemma_last_redirect(redirects.drop_last(), kind);
        assert forall|j: int| k < j < redirects.len() implies !kind(#[trigger] redirects[j]) by {
            if j < redirects.len() - 1 {
                assert(redirects.drop_last()[j] == redirects[j]);
            }
        }
        k
    }
}

/// How a pipeline runs: in the background all at once where it can be detached;
/// in the foreground all at once where it has several stages that all are
/// external, and stage by stage otherwise. Redirects alone run like any other
/// pipeline, also in the background.
pub proof fn law_modes(stages: int, external: bool, background: bool)
    ensures
        mode_of(true, stages, false, true) is Detached,
        mode_of(true, stages, false, false) is Rejected,
        stages > 1 ==> mode_of(false, stages, false, true) is Streaming,
        stages <= 1 ==> mode_of(false, stages, false, external) is Buffered,
        mode_of(false, stages, false, false) is Buffered,
        mode_of(background, stages, true, external) == mode_of(false, stages, true, external),
{
}

/// What becomes of a stage's status and of the run: every event leaves its
/// status; a stage that could not be run ends the run, and so does any stage
/// but bare redirects when the shell is to exit.
pub proof fn law_stage_statuses(
    run: StageRunView,
    count: int,
    out: StdoutTargetView,
    status: i32,
    output: Seq<u8>,
    captured: Option<Seq<u8>>,
)
    requires
        0 <= run.index,
        run.index + 1 < count,
    ensures
        ({
            let touched = StageEventView::Touched { status };
            let builtin = StageEventView::Builtin { status, output };
            let external = StageEventView::External { status, captured };
            let failed = StageEventView::Failed { status };
            let after = |event: StageEventView, exiting: bool|
                stage_done(run, count, out, event, exiting);
            &&& after(touched, false).status == status && !after(touched, false).done
            &&& after(builtin, false).status == status && !after(builtin, false).done
            &&& after(external, false).status == status && !after(external, false).done
            &&& after(failed, false).status == status && after(failed, false).done
            &&& after(builtin, true).done && after(external, true).done
            &&& !after(touched, true).done
            &&& after(touched, false).stdin_data == run.stdin_data
            &&& after(failed, false).stdin_data is None
        }),
{
}

/// Where the output of a builtin goes: to the terminal, or to the file that it
/// is redirected to; the input that it did not read is left for the next
/// external stage. What the last stage wrote into a buffer is printed.
pub proof fn law_builtin_output(
    run: StageRunView,
    count: int,
    status: i32,
    path: Seq<char>,
    append: bool,
    output: Seq<u8>,
    out: StdoutTargetView,
)
    requires
        0 <= run.index < count,
    ensures
        ({
            let event = StageEventView::Builtin { status, output };
            let file = StdoutTargetView::File { path, append };
            &&& stage_output(run, count, StdoutTargetView::Inherit, event) == OutputView::Terminal(
                output,
            )
            &&& stage_output(run, count, file, event) == OutputView::File(output)
            &&& stage_done(run, count, StdoutTargetView::Inherit, event, false).stdin_data
                == run.stdin_data
            &&& stage_done(run, count, file, event, false).stdin_data == run.stdin_data
        }),
        run.index + 1 == count ==> stage_output(
            run,
            count,
            out,
            StageEventView::External { status, captured: Some(output) },
        ) == OutputView::Terminal(output),
{
}

/// The label of a pipeline: its words with a blank between neighbours, and
/// ` | ` between its stages.
pub proof fn law_labels_join(argvs: Seq<Seq<Seq<char>>>, words: Seq<Seq<char>>, word: Seq<char>)
    requires
        words.len() > 0,
        argvs.len() > 0,
    ensures
        label_text(seq![seq![word]]) == word,
        label_text(seq![words.push(word)]) == label_text(seq![words]) + seq![' '] + word,
        label_text(argvs.push(words)) == label_text(argvs) + seq![' ', '|', ' '] + label_text(
            seq![words],
        ),
{
    reveal_strlit(" ");
    reveal_strlit(" | ");
    assert(" "@ =~= seq![' ']);
    assert(" | "@ =~= seq![' ', '|', ' ']);
    let texts_of = |a: Seq<Seq<Seq<char>>>| Seq::new(a.len(), |i: int| joined(a[i], " "@));
    let more = words.push(word);
    assert(more.drop_last() =~= words);
    assert(texts_of(seq![words])[0] == joined(words, " "@));
    assert(texts_of(seq![more])[0] == joined(more, " "@));
    assert(texts_of(seq![seq![word]])[0] == joined(seq![word], " "@));
    let all = argvs.push(words);
    assert(texts_of(all).drop_last() =~= texts_of(argvs));
    assert(texts_of(all).last() == joined(words, " "@));
}

/// What a stage is: nothing but redirects without words, a builtin by the name
/// of one, and an external command by any other name.
pub proof fn law_stage_kinds(i: int, name: Seq<char>, args: Seq<Seq<char>>)
    requires
        0 <= i < 11,
    ensures
        kind_of_stage(Seq::empty()) is Touch,
        kind_of_stage(seq![builtin_table()[i].0] + args) is Builtin,
        !names_external(seq![builtin_table()[i].0] + args),
        (forall|k: int| 0 <= k < 11 ==> (#[trigger] builtin_table()[k]).0 != name) ==> {
            &&& kind_of_stage(seq![name] + args) is External
            &&& names_external(seq![name] + args)
        },
        !names_external(Seq::empty()),
{
    law_builtins_by_name(i, args, name);
    assert((seq![name] + args)[0] == name);
    let words = seq![builtin_table()[i].0] + args;
    assert(words[0] == builtin_table()[i].0);
}

/// The names of a pipeline are external where each of its commands' is; it is
/// bare where none of its commands has words; and a command is looked up by its
/// first word.
pub proof fn law_commands_of_a_pipeline(
    names: Seq<Seq<Seq<char>>>,
    name: Seq<Seq<char>>,
    pipeline: PipelineView,
    cmd: CommandView,
    word: Seq<PartView>,
    words: Seq<Seq<PartView>>,
)
    ensures
        all_external(names.push(name)) <==> all_external(names) && names_external(name),
        all_external(Seq::empty()),
        is_bare(PipelineView { cmds: pipeline.cmds.push(cmd), ..pipeline }) <==> is_bare(pipeline)
            && cmd.argv.len() == 0,
        head_word(CommandView { argv: seq![word] + words, ..cmd }) == seq![word],
        head_word(CommandView { argv: Seq::empty(), ..cmd }) == Seq::<Seq<PartView>>::empty(),
{
    let all = names.push(name);
    assert(all[names.len() as int] == name);
    if all_external(all) {
        assert forall|i: int| 0 <= i < names.len() implies names_external(#[trigger] names[i]) by {
            assert(names_external(all[i]));
        }
        assert(names_external(all[names.len() as int]));
    }
    let longer = PipelineView { cmds: pipeline.cmds.push(cmd), ..pipeline };
    let n = pipeline.cmds.len() as int;
    assert(longer.cmds[n] == cmd);
    if is_bare(longer) {
        assert(longer.cmds[n].argv.len() == 0);
        assert forall|i: int| 0 <= i < n implies (#[trigger] pipeline.cmds[i]).argv.len() == 0 by {
            assert(longer.cmds[i].argv.len() == 0);
        }
    }
    assert((seq![word] + words)[0] == word);
}

/// Bare redirects succeed where all their files can be opened.
pub proof fn law_touched_files(out_opened: bool, err_opened: bool)
    ensures
        touched_status(true, true) == 0,
        !out_opened || !err_opened ==> touched_status(out_opened, err_opened) == 1,
{
}

/// A command that is not found comes to 127, any other that cannot be started
/// to 1.
pub proof fn law_start_errors()
    ensures
        start_error_status(StartError::NotFound) == 127,
        start_error_status(StartError::Redirect) == 1,
        start_error_status(StartError::Other) == 1,
{
}

/// After the last stage nothing is left to read; an external stage that wrote
/// nothing into memory leaves the next one nothing.
pub proof fn law_last_stage(
    run: StageRunView,
    count: int,
    out: StdoutTargetView,
    status: i32,
    captured: Option<Seq<u8>>,
    exiting: bool,
)
    requires
        0 <= run.index < count,
    ensures
        ({
            let event = StageEventView::External { status, captured };
            let after = stage_done(run, count, out, event, exiting);
            let quiet = stage_done(
                run,
                count,
                out,
                StageEventView::External { status, captured: None },
                exiting,
            );
            &&& run.index + 1 == count ==> after.stdin_data is None && after.done && after.status
                == status
            &&& run.index + 1 < count ==> after.stdin_data == captured
            &&& quiet.stdin_data is None
            &&& run.index + 1 == count ==> stage_output(
                run,
                count,
                out,
                StageEventView::External { status, captured: None },
            ) is Nothing
        }),
        stage_output(run, count, out, StageEventView::Touched { status }) is Nothing,
        stage_output(run, count, out, StageEventView::Failed { status }) is Nothing,
{
}

} // verus!
