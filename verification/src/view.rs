//! What the window shows around the terminal: the cursor's blink phase, tab
//! labels and titles, directories, and when to repaint.

use vstd::prelude::*;

use crate::text::{
    chars_of, has_prefix, is_blank, is_white_space, law_trimming, string_of, trim_text, trimmed,
};

verus! {

// ---------------------------------------------------------------------------
// Blinking.

/// Visible phase of the block-cursor blink `elapsed` milliseconds after the
/// last activity: one period of 530 visible, one hidden.
pub open spec fn blink_phase(elapsed: int) -> bool {
    elapsed / 530 % 2 == 0
}

/// Visible phase of the block-cursor blink at `elapsed` milliseconds since the
/// last input/output activity (activity resets the phase to "visible").
pub fn blink_visible(elapsed: u128) -> (r: bool)
    ensures
        r == blink_phase(elapsed as int),
{
    elapsed / 530 % 2 == 0
}

/// Milliseconds until the next blink toggle, `elapsed` milliseconds after the
/// last activity.
pub open spec fn toggle_delay(elapsed: int) -> int {
    530 - elapsed % 530
}

/// Milliseconds until the next blink toggle.
pub fn until_toggle(elapsed: u64) -> (r: u64)
    ensures
        r == toggle_delay(elapsed as int),
        r == 530 - elapsed % 530,
        0 < r <= 530,
{
    530 - elapsed % 530
}

/// The phase holds up to the next toggle, and changes there.
pub proof fn law_toggle_changes_the_phase(elapsed: int, later: int)
    requires
        0 <= elapsed <= later,
    ensures
        later < elapsed + toggle_delay(elapsed) ==> blink_phase(later) == blink_phase(elapsed),
        later == elapsed + toggle_delay(elapsed) ==> blink_phase(later) != blink_phase(elapsed),
        0 < toggle_delay(elapsed) == 530 - elapsed % 530,
{
    let q = elapsed / 530;
    assert(elapsed == 530 * q + elapsed % 530);
    if later < elapsed + (530 - elapsed % 530) {
        assert(later / 530 == q);
    }
    if later == elapsed + (530 - elapsed % 530) {
        assert(later / 530 == q + 1);
    }
}

// ---------------------------------------------------------------------------
// Repainting.

/// Nanoseconds to wait before a repaint: what is left of a frame's 16 ms, if
/// anything is.
pub open spec fn frame_rest(elapsed: int) -> Option<int> {
    if elapsed >= 16_000_000 {
        None
    } else {
        Some(16_000_000 - elapsed)
    }
}

/// Nanoseconds to wait before a repaint when the last one was `elapsed`
/// nanoseconds ago: none if a frame's worth of time (16 ms) has passed, else
/// what is left of it.
pub fn repaint_delay(elapsed: u128) -> (r: Option<u64>)
    ensures
        match r {
            None => frame_rest(elapsed as int) is None,
            Some(delay) => frame_rest(elapsed as int) == Some(delay as int),
        },
        match r {
            None => elapsed >= 16_000_000,
            Some(delay) => elapsed + delay == 16_000_000 && delay > 0,
        },
{
    if elapsed >= 16_000_000 {
        None
    } else {
        Some(16_000_000 - elapsed as u64)
    }
}

// ---------------------------------------------------------------------------
// Tabs.

/// The label of a tab in the sidebar: labels longer than 24 characters are cut
/// and end in an ellipsis.
pub open spec fn short_label(label: Seq<char>) -> Seq<char> {
    if label.len() > 24 {
        label.take(23).push('…')
    } else {
        label
    }
}

/// The label of a tab in the sidebar.
pub fn sidebar_label(label: &str) -> (r: String)
    ensures
        r@ == short_label(label@),
        r@.len() <= 24,
{
    let chars = chars_of(label);
    if chars.len() > 24 {
        let mut out = string_of(chars.as_slice(), 0, 23);
        out.push('…');
        proof {
            assert(out@ =~= short_label(label@));
        }
        out
    } else {
        proof {
            assert(chars@ =~= chars@.subrange(0, chars@.len() as int));
        }
        string_of(chars.as_slice(), 0, chars.len())
    }
}

/// What is known of a tab apart from its terminal.
pub struct TabState {
    pub id: usize,
    /// Title set by the shell via escape sequences, if any.
    pub title: Option<String>,
    pub default_title: String,
    /// Set once the child process has exited; dead tabs are removed.
    pub dead: bool,
}

/// What the terminal of a tab reported.
pub enum TabEvent {
    Title(String),
    ResetTitle,
    /// The child process exited.
    Exit,
    /// Text for the program.
    PtyWrite(String),
    /// Text for the clipboard.
    ClipboardStore(String),
    Other,
}

/// What a report asks for.
pub enum TabAction {
    Nothing,
    Write(String),
    CopyText(String),
}

/// The title after a report: set, taken back, or as it was.
pub open spec fn title_after(title: Option<String>, event: TabEvent) -> Option<String> {
    match event {
        TabEvent::Title(text) => Some(text),
        TabEvent::ResetTitle => None,
        _ => title,
    }
}

/// What a report asks for.
pub open spec fn asked_by(event: TabEvent) -> TabAction {
    match event {
        TabEvent::PtyWrite(text) => TabAction::Write(text),
        TabEvent::ClipboardStore(text) => TabAction::CopyText(text),
        _ => TabAction::Nothing,
    }
}

impl TabState {
    pub fn new(id: usize, default_title: String) -> (r: TabState)
        ensures
            r.id == id,
            r.title is None,
            r.default_title == default_title,
            !r.dead,
    {
        TabState { id, title: None, default_title, dead: false }
    }

    /// The tab's title, or the default one.
    pub open spec fn label_text(self) -> Seq<char> {
        match self.title {
            Some(title) => title@,
            None => self.default_title@,
        }
    }

    /// The tab's title, or the default one.
    pub fn label(&self) -> (r: String)
        ensures
            r@ == self.label_text(),
    {
        match &self.title {
            Some(title) => title.clone(),
            None => self.default_title.clone(),
        }
    }

    /// The terminal reported `event`.
    pub fn apply(&mut self, event: TabEvent) -> (r: TabAction)
        ensures
            final(self).title == title_after(old(self).title, event),
            r == asked_by(event),
            final(self).id == old(self).id,
            final(self).default_title == old(self).default_title,
            final(self).title == match event {
                TabEvent::Title(title) => Some(title),
                TabEvent::ResetTitle => None,
                _ => old(self).title,
            },
            final(self).dead == (old(self).dead || event is Exit),
            r == match event {
                TabEvent::PtyWrite(text) => TabAction::Write(text),
                TabEvent::ClipboardStore(text) => TabAction::CopyText(text),
                _ => TabAction::Nothing,
            },
    {
        match event {
            TabEvent::Title(title) => {
                self.title = Some(title);
                TabAction::Nothing
            },
            TabEvent::ResetTitle => {
                self.title = None;
                TabAction::Nothing
            },
            TabEvent::Exit => {
                self.dead = true;
                TabAction::Nothing
            },
            TabEvent::PtyWrite(text) => TabAction::Write(text),
            TabEvent::ClipboardStore(text) => TabAction::CopyText(text),
            TabEvent::Other => TabAction::Nothing,
        }
    }
}

// ---------------------------------------------------------------------------
// Terminal sizes and shells.

/// Grid dimensions in cells.
#[derive(Debug, Clone, Copy, PartialEq, Eq, Structural)]
pub struct TermSize {
    pub columns: usize,
    pub screen_lines: usize,
}

impl TermSize {
    pub fn new(columns: usize, screen_lines: usize) -> (r: TermSize)
        ensures
            r.columns == columns,
            r.screen_lines == screen_lines,
    {
        TermSize { columns, screen_lines }
    }
}

/// The first text of four that is there, else `/bin/zsh`.
pub open spec fn first_shell(
    env_override: Option<String>,
    configured: Option<String>,
    beside: Option<String>,
    login: Option<String>,
) -> Seq<char> {
    match (env_override, configured, beside, login) {
        (Some(path), _, _, _) => path@,
        (None, Some(path), _, _) => path@,
        (None, None, Some(path), _) => path@,
        (None, None, None, Some(path)) => path@,
        _ => "/bin/zsh"@,
    }
}

/// Which shell to run in a new session, by priority: the `COMMA_SHELL`
/// override, the one from the configuration, the `comma-shell` binary beside
/// the running one, `$SHELL`, and `/bin/zsh` as a fallback.
pub fn shell_path(
    env_override: Option<String>,
    configured: Option<String>,
    beside: Option<String>,
    login: Option<String>,
) -> (r: String)
    ensures
        r@ == first_shell(env_override, configured, beside, login),
{
    match env_override {
        Some(path) => path,
        None => match configured {
            Some(path) => path,
            None => match beside {
                Some(path) => path,
                None => match login {
                    Some(path) => path,
                    None => String::from_str("/bin/zsh"),
                },
            },
        },
    }
}

// ---------------------------------------------------------------------------
// Directories.

/// A path with a leading home directory shortened to `~`: the directory itself
/// and what lies below it, not one that merely shares its name's start.
pub open spec fn home_shortened(path: Seq<char>, home: Seq<char>) -> Seq<char> {
    if path == home {
        seq!['~']
    } else if home.is_prefix_of(path) && path[home.len() as int] == '/' {
        seq!['~'] + path.skip(home.len() as int)
    } else {
        path
    }
}

/// Shorten a leading home directory to `~` for display.
pub fn shorten_home(path: &str, home: Option<&str>) -> (r: String)
    ensures
        r@ == match home {
            Some(home) => home_shortened(path@, home@),
            None => path@,
        },
{
    let chars = chars_of(path);
    let n: usize = chars.len();
    proof {
        assert(chars@ =~= chars@.subrange(0, n as int));
    }
    let home = match home {
        Some(home) => home,
        None => {
            return string_of(chars.as_slice(), 0, n);
        },
    };
    let prefix = chars_of(home);
    let k: usize = prefix.len();
    if has_prefix(chars.as_slice(), prefix.as_slice()) {
        if k == n {
            proof {
                assert(path@ =~= home@);
            }
            let mut out = String::new();
            out.push('~');
            proof {
                assert(out@ =~= seq!['~']);
            }
            return out;
        }
        if chars[k] == '/' {
            let mut out = String::new();
            out.push('~');
            let rest = string_of(chars.as_slice(), k, n);
            out.append(rest.as_str());
            proof {
                assert(out@ =~= seq!['~'] + path@.skip(k as int));
            }
            return out;
        }
    } else {
        proof {
            assert(path@ == home@ ==> home@.is_prefix_of(path@)) by {
                assert(home@ =~= home@.subrange(0, home@.len() as int));
            }
        }
    }
    string_of(chars.as_slice(), 0, n)
}

/// The text after `prefix`, if `s` begins with it.
pub open spec fn after_prefix(s: Seq<char>, prefix: Seq<char>) -> Option<Seq<char>> {
    if prefix.is_prefix_of(s) {
        Some(s.skip(prefix.len() as int))
    } else {
        None
    }
}

/// The text after `prefix`, if `s` begins with it.
pub fn strip(s: &str, prefix: &str) -> (r: Option<String>)
    ensures
        match r {
            Some(rest) => after_prefix(s@, prefix@) == Some(rest@),
            None => after_prefix(s@, prefix@) is None,
        },
{
    let chars = chars_of(s);
    let head = chars_of(prefix);
    if has_prefix(chars.as_slice(), head.as_slice()) {
        let rest = string_of(chars.as_slice(), head.len(), chars.len());
        proof {
            assert(rest@ =~= s@.skip(prefix@.len() as int));
        }
        Some(rest)
    } else {
        None
    }
}

/// Whether half a second has passed, or nothing was asked yet.
pub open spec fn is_due(elapsed: Option<u128>) -> bool {
    elapsed matches Some(nanos) ==> nanos >= 500_000_000
}

/// Whether the directory of a tab's shell has to be asked for again, `elapsed`
/// nanoseconds after it was last asked for: at first, and after half a second.
pub fn poll_is_due(elapsed: Option<u128>) -> (r: bool)
    ensures
        r == is_due(elapsed),
        r == match elapsed {
            None => true,
            Some(elapsed) => elapsed >= 500_000_000,
        },
{
    match elapsed {
        None => true,
        Some(elapsed) => elapsed >= 500_000_000,
    }
}

/// What the text of a repository's `HEAD` file says: the branch of
/// `ref: refs/heads/<branch>`, or the first 7 characters of a hash.
pub open spec fn head_branch(head: Seq<char>) -> Seq<char> {
    let text = trimmed(head);
    match after_prefix(text, "ref: refs/heads/"@) {
        Some(branch) => branch,
        None => if text.len() > 7 {
            text.take(7)
        } else {
            text
        },
    }
}

/// The branch that the text of a repository's `HEAD` file names; a detached
/// HEAD gives the first 7 characters of its hash.
pub fn branch_of_head(head: &str) -> (r: String)
    ensures
        r@ == head_branch(head@),
{
    let text = trim_text(head);
    match strip(text.as_str(), "ref: refs/heads/") {
        Some(branch) => branch,
        None => {
            let chars = chars_of(text.as_str());
            let n: usize = if chars.len() > 7 {
                7
            } else {
                chars.len()
            };
            let out = string_of(chars.as_slice(), 0, n);
            proof {
                assert(chars@.subrange(0, n as int) =~= chars@.take(n as int));
                assert(chars@.take(chars@.len() as int) =~= chars@);
            }
            out
        },
    }
}

/// The git directory that a worktree's `.git` file points at.
pub open spec fn gitdir_target(content: Seq<char>) -> Option<Seq<char>> {
    match after_prefix(trimmed(content), "gitdir:"@) {
        Some(rest) => Some(trimmed(rest)),
        None => None,
    }
}

/// The git directory that a worktree's `.git` file points at.
pub fn gitdir_of(content: &str) -> (r: Option<String>)
    ensures
        match r {
            Some(dir) => gitdir_target(content@) == Some(dir@),
            None => gitdir_target(content@) is None,
        },
{
    match strip(trim_text(content).as_str(), "gitdir:") {
        Some(rest) => Some(trim_text(rest.as_str())),
        None => None,
    }
}

/// What is found under the name `.git` in a directory.
pub enum DotGit {
    Directory,
    /// A file, with its text where it can be read.
    File(Option<String>),
    /// Nothing of the kind.
    Missing,
}

/// Model of [`DotGit`].
pub enum DotGitView {
    Directory,
    File(Option<Seq<char>>),
    Missing,
}

impl View for DotGit {
    type V = DotGitView;

    open spec fn view(&self) -> DotGitView {
        match *self {
            DotGit::Directory => DotGitView::Directory,
            DotGit::File(Some(text)) => DotGitView::File(Some(text@)),
            DotGit::File(None) => DotGitView::File(None),
            DotGit::Missing => DotGitView::Missing,
        }
    }
}

/// Where the search for a repository's `HEAD` file goes from a directory.
pub enum HeadStep {
    /// The file is in the directory's `.git`.
    Here,
    /// The file is in this git directory, which is relative to the directory.
    At(String),
    /// Go on in the parent directory.
    Up,
    /// There is no branch to be told.
    Stop,
}

/// Model of [`HeadStep`].
pub enum HeadStepView {
    Here,
    At(Seq<char>),
    Up,
    Stop,
}

impl View for HeadStep {
    type V = HeadStepView;

    open spec fn view(&self) -> HeadStepView {
        match *self {
            HeadStep::Here => HeadStepView::Here,
            HeadStep::At(dir) => HeadStepView::At(dir@),
            HeadStep::Up => HeadStepView::Up,
            HeadStep::Stop => HeadStepView::Stop,
        }
    }
}

/// Where the search for a repository's `HEAD` file goes: a `.git` directory
/// holds it, a `.git` file (of a worktree or a submodule) tells where it is or
/// ends the search, and without either the parent directory is looked at.
pub open spec fn head_step_of(found: DotGitView) -> HeadStepView {
    match found {
        DotGitView::Directory => HeadStepView::Here,
        DotGitView::File(None) => HeadStepView::Stop,
        DotGitView::File(Some(content)) => match gitdir_target(content) {
            Some(dir) => HeadStepView::At(dir),
            None => HeadStepView::Stop,
        },
        DotGitView::Missing => HeadStepView::Up,
    }
}

/// Where the search for a repository's `HEAD` file goes from a directory.
pub fn head_step(found: &DotGit) -> (r: HeadStep)
    ensures
        r@ == head_step_of(found@),
{
    match found {
        DotGit::Directory => HeadStep::Here,
        DotGit::File(None) => HeadStep::Stop,
        DotGit::File(Some(content)) => match gitdir_of(content.as_str()) {
            Some(dir) => HeadStep::At(dir),
            None => HeadStep::Stop,
        },
        DotGit::Missing => HeadStep::Up,
    }
}

// ---------------------------------------------------------------------------
// Laws.

/// A sibling whose name merely starts with the home directory's text is left
/// alone.
pub proof fn law_siblings_of_home_stay(home: Seq<char>, rest: Seq<char>)
    requires
        rest.len() > 0,
        rest[0] != '/',
    ensures
        home_shortened(home + rest, home) == home + rest,
{
    let path = home + rest;
    assert(path[home.len() as int] == rest[0]);
    assert(path.len() != home.len());
}

/// What lies below the home directory keeps its path from there.
pub proof fn law_below_home(home: Seq<char>, rest: Seq<char>)
    ensures
        home_shortened(home + (seq!['/'] + rest), home) == seq!['~', '/'] + rest,
        home_shortened(home, home) == seq!['~'],
{
    let path = home + (seq!['/'] + rest);
    assert(home =~= path.subrange(0, home.len() as int));
    assert(path[home.len() as int] == '/');
    assert(path.skip(home.len() as int) =~= seq!['/'] + rest);
    assert(path.len() != home.len());
    assert(seq!['~'] + (seq!['/'] + rest) =~= seq!['~', '/'] + rest);
}

/// After some activity the cursor shows for 530 milliseconds, and then is hidden
/// for as long.
pub proof fn law_blink_starts_visible(elapsed: int, round: int)
    requires
        0 <= elapsed < 530,
        0 <= round,
    ensures
        blink_phase(elapsed + 1060 * round),
        !blink_phase(elapsed + 530 + 1060 * round),
{
    let shown = elapsed + 1060 * round;
    let hidden = elapsed + 530 + 1060 * round;
    assert(shown / 530 == 2 * round);
    assert(hidden / 530 == 2 * round + 1);
}

/// A title holds until another one or a reset comes; the label falls back to the
/// default title then. Only text for the program and for the clipboard asks for
/// anything.
pub proof fn law_titles(tab: TabState, text: String, title: Option<String>)
    ensures
        title_after(title, TabEvent::Title(text)) == Some(text),
        title_after(title, TabEvent::ResetTitle) is None,
        title_after(title, TabEvent::Exit) == title,
        title_after(title, TabEvent::Other) == title,
        title_after(title, TabEvent::PtyWrite(text)) == title,
        title_after(title, TabEvent::ClipboardStore(text)) == title,
        asked_by(TabEvent::PtyWrite(text)) == TabAction::Write(text),
        asked_by(TabEvent::ClipboardStore(text)) == TabAction::CopyText(text),
        asked_by(TabEvent::Title(text)) is Nothing,
        asked_by(TabEvent::ResetTitle) is Nothing,
        asked_by(TabEvent::Exit) is Nothing,
        asked_by(TabEvent::Other) is Nothing,
        tab.title is None ==> tab.label_text() == tab.default_title@,
        tab.title matches Some(shown) ==> tab.label_text() == shown@,
{
}

/// Between two repaints there are 16 milliseconds: with the rest of the frame
/// waited for they have passed, and a longer time leaves nothing to wait for.
pub proof fn law_frames_are_apart(elapsed: int, more: int)
    requires
        0 <= elapsed,
        0 <= more,
    ensures
        elapsed < 16_000_000 ==> frame_rest(elapsed) == Some(16_000_000 - elapsed),
        frame_rest(16_000_000 + more) is None,
        frame_rest(elapsed) matches Some(rest) ==> frame_rest(elapsed + rest) is None && rest > 0,
{
}

/// The directory is asked for at first, and then no more than twice a second.
pub proof fn law_polls_are_apart(nanos: u128)
    ensures
        is_due(None),
        is_due(Some(nanos)) <==> nanos >= 500_000_000,
{
}

/// Labels of up to 24 characters show whole; of a longer one the first 23
/// characters and an ellipsis.
pub proof fn law_labels_are_cut(label: Seq<char>, rest: Seq<char>)
    ensures
        label.len() <= 24 ==> short_label(label) == label,
        label.len() == 23 && rest.len() > 1 ==> short_label(label + rest) == label + seq!['…'],
{
    if label.len() == 23 && rest.len() > 1 {
        assert((label + rest).take(23) =~= label);
        assert(label.push('…') =~= label + seq!['…']);
    }
}

/// The shell is the one that is set in the environment, else the configured one,
/// else the one beside the program, else the login shell, else `/bin/zsh`.
pub proof fn law_shell_is_chosen(a: String, b: Option<String>, c: Option<String>, d: Option<String>)
    ensures
        first_shell(Some(a), b, c, d) == a@,
        first_shell(None, Some(a), c, d) == a@,
        first_shell(None, None, Some(a), d) == a@,
        first_shell(None, None, None, Some(a)) == a@,
        first_shell(None, None, None, None) == seq!['/', 'b', 'i', 'n', '/', 'z', 's', 'h'],
{
    reveal_strlit("/bin/zsh");
    assert("/bin/zsh"@ =~= seq!['/', 'b', 'i', 'n', '/', 'z', 's', 'h']);
}

/// What stands in front of the name of a branch in a `HEAD` file.
pub open spec fn branch_mark() -> Seq<char> {
    seq!['r', 'e', 'f', ':', ' ', 'r', 'e', 'f', 's', '/', 'h', 'e', 'a', 'd', 's', '/']
}

/// A `HEAD` file names a branch, or holds a hash of which the first 7 characters
/// show; the white space around does not count.
pub proof fn law_heads(before: Seq<char>, text: Seq<char>, after: Seq<char>)
    requires
        is_blank(before),
        is_blank(after),
        text.len() > 0,
        !is_white_space(text[0]),
        !is_white_space(text.last()),
    ensures
        head_branch(before + (branch_mark() + text) + after) == text,
        !branch_mark().is_prefix_of(text) && text.len() <= 7 ==> head_branch(before + text + after)
            == text,
        !branch_mark().is_prefix_of(text) && text.len() > 7 ==> head_branch(before + text + after)
            == text.take(7),
{
    reveal_strlit("ref: refs/heads/");
    assert("ref: refs/heads/"@ =~= branch_mark());
    let whole = branch_mark() + text;
    assert(whole[0] == 'r' && whole.last() == text.last());
    law_trimming(before, whole, after);
    law_trimming(before, text, after);
    assert(branch_mark() =~= whole.subrange(0, 16));
    assert(whole.skip(16) =~= text);
}

/// A `.git` directory holds the head itself; a `.git` file points at it behind
/// `gitdir:`, white space aside, or ends the search; without either the search
/// goes up.
pub proof fn law_head_search(
    before: Seq<char>,
    gap: Seq<char>,
    dir: Seq<char>,
    after: Seq<char>,
)
    requires
        is_blank(before),
        is_blank(gap),
        is_blank(after),
        dir.len() > 0,
        !is_white_space(dir[0]),
        !is_white_space(dir.last()),
    ensures
        ({
            let mark = seq!['g', 'i', 't', 'd', 'i', 'r', ':'];
            &&& head_step_of(DotGitView::Directory) == HeadStepView::Here
            &&& head_step_of(DotGitView::Missing) == HeadStepView::Up
            &&& head_step_of(DotGitView::File(None)) == HeadStepView::Stop
            &&& head_step_of(DotGitView::File(Some(before + (mark + gap + dir) + after)))
                == HeadStepView::At(dir)
            &&& !mark.is_prefix_of(dir) ==> head_step_of(
                DotGitView::File(Some(before + dir + after)),
            ) == HeadStepView::Stop
        }),
{
    reveal_strlit("gitdir:");
    let mark = seq!['g', 'i', 't', 'd', 'i', 'r', ':'];
    assert("gitdir:"@ =~= mark);
    let whole = mark + gap + dir;
    assert(whole[0] == 'g' && whole.last() == dir.last());
    law_trimming(before, whole, after);
    law_trimming(before, dir, after);
    let none = Seq::<char>::empty();
    law_trimming(gap, dir, none);
    assert(mark =~= whole.subrange(0, 7));
    assert(whole.skip(7) =~= gap + dir + none);
}

} // verus!
