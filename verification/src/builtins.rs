//! Shell builtins: cd, pwd, echo, exit, export, unset, env, history,
//! jobs, fg, bg.

use vstd::prelude::*;

use crate::env::{entry_map, entry_names};
use crate::expand::value_of;
use crate::lexer::{find_char, lemma_find_char};
use crate::number::{
    decimal, digits, law_parse_reads_decimal, law_parse_refuses, law_parse_signs,
    lemma_digits_are_digits, parse_i32, parsed_int, unsigned_text,
};
use crate::shell::{job_views, JobState, JobView, Shell};
use crate::text::{
    chars_of, is_digit, is_digit_char, is_letter, is_letter_char, join_texts, joined, law_joining,
    led_by, same_text, string_of, texts,
};

verus! {

/// The name of a builtin.
#[derive(Debug, Clone, Copy, PartialEq, Eq, Structural)]
pub enum Builtin {
    Cd,
    Pwd,
    Echo,
    Exit,
    Export,
    Unset,
    Env,
    History,
    Jobs,
    Fg,
    Bg,
}

/// The builtin that a name stands for.
pub open spec fn builtin_named(name: Seq<char>) -> Option<Builtin> {
    if name == "cd"@ {
        Some(Builtin::Cd)
    } else if name == "pwd"@ {
        Some(Builtin::Pwd)
    } else if name == "echo"@ {
        Some(Builtin::Echo)
    } else if name == "exit"@ {
        Some(Builtin::Exit)
    } else if name == "export"@ {
        Some(Builtin::Export)
    } else if name == "unset"@ {
        Some(Builtin::Unset)
    } else if name == "env"@ {
        Some(Builtin::Env)
    } else if name == "history"@ {
        Some(Builtin::History)
    } else if name == "jobs"@ {
        Some(Builtin::Jobs)
    } else if name == "fg"@ {
        Some(Builtin::Fg)
    } else if name == "bg"@ {
        Some(Builtin::Bg)
    } else {
        None
    }
}

/// All builtin names.
pub open spec fn builtin_names() -> Seq<Seq<char>> {
    seq![
        "cd"@,
        "pwd"@,
        "echo"@,
        "exit"@,
        "export"@,
        "unset"@,
        "env"@,
        "history"@,
        "jobs"@,
        "fg"@,
        "bg"@,
    ]
}

/// All builtin names.
pub fn names() -> (r: Vec<String>)
    ensures
        texts(r@) == builtin_names(),
{
    let mut v: Vec<String> = Vec::new();
    v.push(String::from_str("cd"));
    v.push(String::from_str("pwd"));
    v.push(String::from_str("echo"));
    v.push(String::from_str("exit"));
    v.push(String::from_str("export"));
    v.push(String::from_str("unset"));
    v.push(String::from_str("env"));
    v.push(String::from_str("history"));
    v.push(String::from_str("jobs"));
    v.push(String::from_str("fg"));
    v.push(String::from_str("bg"));
    proof {
        assert(texts(v@) =~= builtin_names());
    }
    v
}

/// The builtin that a name stands for.
fn find_builtin(name: &str) -> (r: Option<Builtin>)
    ensures
        r == builtin_named(name@),
{
    if same_text(name, "cd") {
        Some(Builtin::Cd)
    } else if same_text(name, "pwd") {
        Some(Builtin::Pwd)
    } else if same_text(name, "echo") {
        Some(Builtin::Echo)
    } else if same_text(name, "exit") {
        Some(Builtin::Exit)
    } else if same_text(name, "export") {
        Some(Builtin::Export)
    } else if same_text(name, "unset") {
        Some(Builtin::Unset)
    } else if same_text(name, "env") {
        Some(Builtin::Env)
    } else if same_text(name, "history") {
        Some(Builtin::History)
    } else if same_text(name, "jobs") {
        Some(Builtin::Jobs)
    } else if same_text(name, "fg") {
        Some(Builtin::Fg)
    } else if same_text(name, "bg") {
        Some(Builtin::Bg)
    } else {
        None
    }
}

/// Whether `name` is a builtin.
pub fn is_builtin(name: &str) -> (r: bool)
    ensures
        r == builtin_named(name@) is Some,
        r == builtin_names().contains(name@),
{
    proof {
        law_names_are_the_builtins(name@);
    }
    find_builtin(name).is_some()
}

/// The names are those of the builtins, no more and no fewer.
pub proof fn law_names_are_the_builtins(name: Seq<char>)
    ensures
        builtin_named(name) is Some <==> builtin_names().contains(name),
{
    let all = builtin_names();
    if builtin_named(name) is Some {
        if name == "cd"@ {
            assert(all[0] == name);
        } else if name == "pwd"@ {
            assert(all[1] == name);
        } else if name == "echo"@ {
            assert(all[2] == name);
        } else if name == "exit"@ {
            assert(all[3] == name);
        } else if name == "export"@ {
            assert(all[4] == name);
        } else if name == "unset"@ {
            assert(all[5] == name);
        } else if name == "env"@ {
            assert(all[6] == name);
        } else if name == "history"@ {
            assert(all[7] == name);
        } else if name == "jobs"@ {
            assert(all[8] == name);
        } else if name == "fg"@ {
            assert(all[9] == name);
        } else {
            assert(all[10] == name);
        }
    }
    if all.contains(name) {
        let i = choose|i: int| 0 <= i < all.len() && all[i] == name;
        assert(0 <= i < 11);
    }
}

/// What a builtin came to.
pub enum Ran {
    /// It is done, with this status.
    Done(i32),
    /// The process has to change to this directory; [`cd_done`] finishes.
    ChangeDir(String),
    /// The current directory is needed; [`pwd_done`] finishes.
    PrintDir,
    /// The jobs have to be reaped; [`list_jobs`] finishes.
    ListJobs,
    /// The job this names has to be continued in the foreground.
    Foreground(Option<String>),
    /// The job this names has to be continued in the background.
    Background(Option<String>),
}

/// Model of what a builtin came to.
pub enum RanView {
    Done(int),
    ChangeDir(Seq<char>),
    PrintDir,
    ListJobs,
    Foreground(Option<Seq<char>>),
    Background(Option<Seq<char>>),
}

impl View for Ran {
    type V = RanView;

    open spec fn view(&self) -> RanView {
        match self {
            Ran::Done(status) => RanView::Done(*status as int),
            Ran::ChangeDir(dir) => RanView::ChangeDir(dir@),
            Ran::PrintDir => RanView::PrintDir,
            Ran::ListJobs => RanView::ListJobs,
            Ran::Foreground(job) => RanView::Foreground(
                match job {
                    Some(text) => Some(text@),
                    None => None,
                },
            ),
            Ran::Background(job) => RanView::Background(
                match job {
                    Some(text) => Some(text@),
                    None => None,
                },
            ),
        }
    }
}

/// The error line of a builtin.
pub open spec fn complaint(message: Seq<char>) -> Seq<char> {
    "comma-shell: "@ + message + "\n"@
}

/// Write the error line of a builtin; its status is 1.
fn fail(out: &mut String, message: &str) -> (r: i32)
    ensures
        r == 1,
        final(out)@ == old(out)@ + complaint(message@),
{
    let ghost before = out@;
    out.append("comma-shell: ");
    out.append(message);
    out.append("\n");
    proof {
        assert(out@ =~= before + complaint(message@));
    }
    1
}

// ---------------------------------------------------------------------------
// cd, pwd.

/// Where `cd` goes: its argument, or the home directory.
pub open spec fn cd_target(args: Seq<Seq<char>>, vars: Map<Seq<char>, Seq<char>>) -> Option<
    Seq<char>,
> {
    if args.len() > 0 {
        Some(args[0])
    } else if vars.contains_key("HOME"@) {
        Some(vars["HOME"@])
    } else {
        None
    }
}

/// Finish `cd`: the directory was changed, or changing it failed with `error`.
pub fn cd_done(target: &str, error: Option<&str>, out: &mut String) -> (r: i32)
    ensures
        match error {
            None => r == 0 && final(out)@ == old(out)@,
            Some(error) => r == 1 && final(out)@ == old(out)@ + complaint(
                "cd: "@ + target@ + ": "@ + error@,
            ),
        },
{
    match error {
        None => 0,
        Some(error) => {
            let message = String::from_str("cd: ").concat(target).concat(": ").concat(error);
            fail(out, message.as_str())
        },
    }
}

/// Finish `pwd`: the current directory, or why it is not known.
pub fn pwd_done(dir: Result<&str, &str>, out: &mut String) -> (r: i32)
    ensures
        match dir {
            Ok(dir) => r == 0 && final(out)@ == old(out)@ + dir@ + "\n"@,
            Err(error) => r == 1 && final(out)@ == old(out)@ + complaint("pwd: "@ + error@),
        },
{
    match dir {
        Ok(dir) => {
            out.append(dir);
            out.append("\n");
            0
        },
        Err(error) => {
            let message = String::from_str("pwd: ").concat(error);
            fail(out, message.as_str())
        },
    }
}

// ---------------------------------------------------------------------------
// echo, exit.

/// What `echo` writes.
pub open spec fn echo_text(args: Seq<Seq<char>>) -> Seq<char> {
    if args.len() > 0 && args[0] == "-n"@ {
        joined(args.skip(1), " "@)
    } else {
        joined(args, " "@) + "\n"@
    }
}

fn echo(args: &[String], out: &mut String) -> (r: i32)
    ensures
        r == 0,
        final(out)@ == old(out)@ + echo_text(texts(args@)),
{
    let ghost all = texts(args@);
    let ghost before = out@;
    if args.len() > 0 && same_text(args[0].as_str(), "-n") {
        let rest = tail(args, 1);
        let text = join_texts(rest.as_slice(), " ");
        out.append(text.as_str());
    } else {
        proof {
            if args@.len() > 0 {
                assert(all[0] == args@[0]@);
            }
        }
        let text = join_texts(args, " ");
        out.append(text.as_str());
        out.append("\n");
        proof {
            assert(out@ =~= before + (text@ + "\n"@));
        }
    }
    0
}

/// The arguments from `from` on.
fn tail(args: &[String], from: usize) -> (r: Vec<String>)
    requires
        from <= args@.len(),
    ensures
        texts(r@) == texts(args@).skip(from as int),
{
    let mut out: Vec<String> = Vec::new();
    let mut i: usize = from;
    while i < args.len()
        invariant
            from <= i <= args@.len(),
            out@.len() == i - from,
            forall|k: int| 0 <= k < i - from ==> (#[trigger] out@[k])@ == args@[from + k]@,
        decreases args.len() - i,
    {
        out.push(args[i].clone());
        i += 1;
    }
    proof {
        assert(texts(out@) =~= texts(args@).skip(from as int));
    }
    out
}

/// The status that `exit` asks for: its argument, or 0 where that is no
/// number.
pub open spec fn exit_status(args: Seq<Seq<char>>) -> int {
    if args.len() > 0 {
        match parsed_int(args[0], i32::MIN as int, i32::MAX as int) {
            Some(code) => code,
            None => 0,
        }
    } else {
        0
    }
}

// ---------------------------------------------------------------------------
// export, unset, env.

/// A name that a variable can have: `[A-Za-z_][A-Za-z0-9_]*`.
pub open spec fn valid_name(name: Seq<char>) -> bool {
    &&& name.len() > 0
    &&& forall|i: int|
        0 <= i < name.len() ==> is_letter_char(#[trigger] name[i]) || name[i] == '_' || (i > 0
            && is_digit_char(name[i]))
}

/// Whether a variable can have the name.
pub fn is_valid_name(name: &str) -> (r: bool)
    ensures
        r == valid_name(name@),
{
    let chars = chars_of(name);
    if chars.len() == 0 {
        return false;
    }
    let mut i: usize = 0;
    while i < chars.len()
        invariant
            chars@ == name@,
            chars@.len() > 0,
            i <= chars@.len(),
            forall|k: int|
                0 <= k < i ==> is_letter_char(#[trigger] chars@[k]) || chars@[k] == '_' || (k > 0
                    && is_digit_char(chars@[k])),
        decreases chars.len() - i,
    {
        let c = chars[i];
        if !(is_letter(c) || c == '_' || (i > 0 && is_digit(c))) {
            proof {
                assert(!(is_letter_char(name@[i as int]) || name@[i as int] == '_' || (i > 0
                    && is_digit_char(name@[i as int]))));
            }
            return false;
        }
        i += 1;
    }
    true
}

/// What one argument of `export` does to the variables; nothing where it is
/// not an assignment to a name or a name.
pub open spec fn exported(
    vars: Map<Seq<char>, Seq<char>>,
    arg: Seq<char>,
) -> Option<Map<Seq<char>, Seq<char>>> {
    match find_char(arg, 0, '=') {
        Some(k) => if valid_name(arg.take(k)) {
            Some(vars.insert(arg.take(k), arg.skip(k + 1)))
        } else {
            None
        },
        // Exporting an existing name: no-op.
        None => if valid_name(arg) {
            Some(vars)
        } else {
            None
        },
    }
}

/// The complaint about an argument of `export`.
pub open spec fn export_complaint(arg: Seq<char>) -> Seq<char> {
    complaint("export: `"@ + arg + "': not a valid identifier"@)
}

/// What `export` came to: the variables, what it wrote, and whether all its
/// arguments were good.
pub struct Exporting {
    pub vars: Map<Seq<char>, Seq<char>>,
    pub written: Seq<char>,
    pub good: bool,
}

/// What `export` comes to with `args`.
pub open spec fn export_all(vars: Map<Seq<char>, Seq<char>>, args: Seq<Seq<char>>) -> Exporting
    decreases args.len(),
{
    if args.len() == 0 {
        Exporting { vars, written: Seq::empty(), good: true }
    } else {
        let before = export_all(vars, args.drop_last());
        match exported(before.vars, args.last()) {
            Some(vars) => Exporting { vars, ..before },
            None => Exporting {
                written: before.written + export_complaint(args.last()),
                good: false,
                ..before
            },
        }
    }
}

/// `a` and `b` differ at most in their variables.
pub open spec fn same_but_env(a: Shell, b: Shell) -> bool {
    &&& a.last_status == b.last_status
    &&& a.should_exit == b.should_exit
    &&& a.history == b.history
    &&& a.jobs == b.jobs
    &&& a.capture == b.capture
}

fn export_one(shell: &mut Shell, arg: &str, out: &mut String) -> (r: bool)
    ensures
        same_but_env(*old(shell), *final(shell)),
        match exported(old(shell).env@, arg@) {
            Some(vars) => r && final(shell).env@ == vars && final(out)@ == old(out)@,
            None => !r && final(shell).env == old(shell).env && final(out)@ == old(out)@
                + export_complaint(arg@),
        },
{
    let chars = chars_of(arg);
    let n: usize = chars.len();
    let mut k: usize = 0;
    while k < n && chars[k] != '='
        invariant
            n == chars@.len(),
            k <= n,
            find_char(chars@, 0, '=') == find_char(chars@, k as int, '='),
        decreases n - k,
    {
        k += 1;
    }
    let good = if k < n {
        let key = string_of(chars.as_slice(), 0, k);
        proof {
            assert(key@ =~= arg@.take(k as int));
        }
        if is_valid_name(key.as_str()) {
            let value = string_of(chars.as_slice(), k + 1, n);
            proof {
                assert(value@ =~= arg@.skip(k + 1));
            }
            shell.env.insert(key, value);
            true
        } else {
            false
        }
    } else {
        is_valid_name(arg)
    };
    if !good {
        let message = String::from_str("export: `").concat(arg).concat(
            "': not a valid identifier",
        );
        fail(out, message.as_str());
    }
    good
}

fn export(shell: &mut Shell, args: &[String], out: &mut String) -> (r: i32)
    requires
        args@.len() > 0,
    ensures
        same_but_env(*old(shell), *final(shell)),
        ({
            let end = export_all(old(shell).env@, texts(args@));
            &&& final(shell).env@ == end.vars
            &&& final(out)@ == old(out)@ + end.written
            &&& r == if end.good {
                0int
            } else {
                1int
            }
        }),
{
    let ghost all = texts(args@);
    let ghost start = shell.env@;
    let ghost before = out@;
    let mut status: i32 = 0;
    let mut i: usize = 0;
    proof {
        assert(before + Seq::<char>::empty() =~= before);
    }
    while i < args.len()
        invariant
            all == texts(args@),
            start == old(shell).env@,
            before == old(out)@,
            i <= args@.len(),
            same_but_env(*old(shell), *shell),
            shell.env@ == export_all(start, all.take(i as int)).vars,
            out@ == before + export_all(start, all.take(i as int)).written,
            status == if export_all(start, all.take(i as int)).good {
                0int
            } else {
                1int
            },
        decreases args.len() - i,
    {
        let ghost so_far = export_all(start, all.take(i as int));
        let ghost written = out@;
        if !export_one(shell, args[i].as_str(), out) {
            status = 1;
        }
        proof {
            assert(all.take(i + 1).drop_last() =~= all.take(i as int));
            assert(all.take(i + 1).last() == args@[i as int]@);
            assert((before + so_far.written) + export_complaint(args@[i as int]@) =~= before + (
            so_far.written + export_complaint(args@[i as int]@)));
        }
        i += 1;
    }
    proof {
        assert(all.take(args@.len() as int) =~= all);
    }
    status
}

/// The variables without `names`.
pub open spec fn without_all(vars: Map<Seq<char>, Seq<char>>, names: Seq<Seq<char>>) -> Map<
    Seq<char>,
    Seq<char>,
>
    decreases names.len(),
{
    if names.len() == 0 {
        vars
    } else {
        without_all(vars, names.drop_last()).remove(names.last())
    }
}

fn unset(shell: &mut Shell, args: &[String]) -> (r: i32)
    ensures
        r == 0,
        same_but_env(*old(shell), *final(shell)),
        final(shell).env@ == without_all(old(shell).env@, texts(args@)),
{
    let ghost all = texts(args@);
    let ghost start = shell.env@;
    let mut i: usize = 0;
    while i < args.len()
        invariant
            all == texts(args@),
            start == old(shell).env@,
            i <= args@.len(),
            same_but_env(*old(shell), *shell),
            shell.env@ == without_all(start, all.take(i as int)),
        decreases args.len() - i,
    {
        shell.env.remove(args[i].as_str());
        proof {
            assert(all.take(i + 1).drop_last() =~= all.take(i as int));
            assert(all.take(i + 1).last() == args@[i as int]@);
        }
        i += 1;
    }
    proof {
        assert(all.take(args@.len() as int) =~= all);
    }
    0
}

/// One line `name=value` for each variable.
pub open spec fn env_lines(entries: Seq<(String, String)>) -> Seq<char>
    decreases entries.len(),
{
    if entries.len() == 0 {
        Seq::empty()
    } else {
        env_lines(entries.drop_last()) + (entries.last().0@ + "="@ + entries.last().1@ + "\n"@)
    }
}

/// `text` lists the variables, in the order of their names.
pub open spec fn lists_env(text: Seq<char>, vars: Map<Seq<char>, Seq<char>>) -> bool {
    exists|entries: Seq<(String, String)>|
        {
            &&& crate::order::strictly_in_order(entry_names(entries))
            &&& entry_map(entries) == vars
            &&& text == #[trigger] env_lines(entries)
        }
}

fn print_env(shell: &Shell, out: &mut String) -> (r: i32)
    ensures
        r == 0,
        exists|text: Seq<char>|
            #[trigger] lists_env(text, shell.env@) && final(out)@ == old(out)@ + text,
{
    let entries = shell.env.entries();
    let ghost before = out@;
    let mut i: usize = 0;
    proof {
        assert(before + Seq::<char>::empty() =~= before);
    }
    while i < entries.len()
        invariant
            before == old(out)@,
            i <= entries@.len(),
            out@ == before + env_lines(entries@.take(i as int)),
        decreases entries.len() - i,
    {
        let ghost so_far = env_lines(entries@.take(i as int));
        let (key, value) = &entries[i];
        out.append(key.as_str());
        out.append("=");
        out.append(value.as_str());
        out.append("\n");
        proof {
            assert(entries@.take(i + 1).drop_last() =~= entries@.take(i as int));
            assert(out@ =~= before + (so_far + (key@ + "="@ + value@ + "\n"@)));
        }
        i += 1;
    }
    proof {
        assert(entries@.take(entries@.len() as int) =~= entries@);
        assert(lists_env(env_lines(entries@), shell.env@));
    }
    0
}

// ---------------------------------------------------------------------------
// history, jobs.

/// `count` spaces.
pub open spec fn spaces(count: int) -> Seq<char> {
    Seq::new(
        if count > 0 {
            count as nat
        } else {
            0
        },
        |i: int| ' ',
    )
}

/// The number right-aligned in a column of five.
pub open spec fn number_column(n: nat) -> Seq<char> {
    spaces(5 - digits(n).len()) + digits(n)
}

/// One numbered line for each entry.
pub open spec fn history_lines(entries: Seq<Seq<char>>) -> Seq<char>
    decreases entries.len(),
{
    if entries.len() == 0 {
        Seq::empty()
    } else {
        history_lines(entries.drop_last()) + (number_column(entries.len()) + "  "@ + entries.last()
            + "\n"@)
    }
}

fn push_number_column(n: usize, out: &mut String)
    ensures
        final(out)@ == old(out)@ + number_column(n as nat),
{
    let text = unsigned_text(n as u64);
    let width: usize = chars_of(text.as_str()).len();
    let ghost before = out@;
    let mut k: usize = width;
    proof {
        assert(before =~= before + spaces(0));
    }
    while k < 5
        invariant
            width <= k,
            k <= 5 || k == width,
            out@ == before + spaces(k - width),
        decreases 5 - k,
    {
        out.push(' ');
        proof {
            assert(out@ =~= before + spaces(k + 1 - width));
        }
        k += 1;
    }
    out.append(text.as_str());
    proof {
        assert(spaces(k - width) =~= spaces(5 - width));
        assert(out@ =~= before + number_column(n as nat));
    }
}

fn history(shell: &Shell, out: &mut String) -> (r: i32)
    ensures
        r == 0,
        final(out)@ == old(out)@ + history_lines(texts(shell.history@)),
{
    let ghost all = texts(shell.history@);
    let ghost before = out@;
    let mut i: usize = 0;
    proof {
        assert(before + Seq::<char>::empty() =~= before);
    }
    while i < shell.history.len()
        invariant
            all == texts(shell.history@),
            before == old(out)@,
            i <= shell.history@.len(),
            out@ == before + history_lines(all.take(i as int)),
        decreases shell.history.len() - i,
    {
        let ghost so_far = history_lines(all.take(i as int));
        push_number_column(i + 1, out);
        out.append("  ");
        out.append(shell.history[i].as_str());
        out.append("\n");
        proof {
            assert(all.take(i + 1).drop_last() =~= all.take(i as int));
            assert(all.take(i + 1).last() == shell.history@[i as int]@);
            assert(out@ =~= before + (so_far + (number_column((i + 1) as nat) + "  "@
                + shell.history@[i as int]@ + "\n"@)));
        }
        i += 1;
    }
    proof {
        assert(all.take(shell.history@.len() as int) =~= all);
    }
    0
}

/// The word for a job's state.
pub open spec fn state_word(state: JobState) -> Seq<char> {
    match state {
        JobState::Running => "Running"@,
        JobState::Stopped => "Stopped"@,
    }
}

/// One line `[id]  state  command` for each job.
pub open spec fn job_lines(jobs: Seq<JobView>) -> Seq<char>
    decreases jobs.len(),
{
    if jobs.len() == 0 {
        Seq::empty()
    } else {
        job_lines(jobs.drop_last()) + ("["@ + digits(jobs.last().id as nat) + "]  "@ + state_word(
            jobs.last().state,
        ) + "  "@ + jobs.last().command_line + "\n"@)
    }
}

/// Finish `jobs`, once finished jobs are reaped.
pub fn list_jobs(shell: &Shell, out: &mut String) -> (r: i32)
    ensures
        r == 0,
        final(out)@ == old(out)@ + job_lines(job_views(shell.jobs@)),
{
    let ghost all = job_views(shell.jobs@);
    let ghost before = out@;
    let mut i: usize = 0;
    proof {
        assert(before + Seq::<char>::empty() =~= before);
    }
    while i < shell.jobs.len()
        invariant
            all == job_views(shell.jobs@),
            before == old(out)@,
            i <= shell.jobs@.len(),
            out@ == before + job_lines(all.take(i as int)),
        decreases shell.jobs.len() - i,
    {
        let ghost so_far = job_lines(all.take(i as int));
        let job = &shell.jobs[i];
        out.append("[");
        out.append(unsigned_text(job.id as u64).as_str());
        out.append("]  ");
        out.append(
            match job.state {
                JobState::Running => "Running",
                JobState::Stopped => "Stopped",
            },
        );
        out.append("  ");
        out.append(job.command_line.as_str());
        out.append("\n");
        proof {
            assert(all.take(i + 1).drop_last() =~= all.take(i as int));
            assert(all.take(i + 1).last() == job@);
            assert(out@ =~= before + (so_far + ("["@ + digits(job.id as nat) + "]  "@ + state_word(
                job.state,
            ) + "  "@ + job.command_line@ + "\n"@)));
        }
        i += 1;
    }
    proof {
        assert(all.take(shell.jobs@.len() as int) =~= all);
    }
    0
}

// ---------------------------------------------------------------------------
// Dispatch.

/// `a` and `b` are the same shell.
pub open spec fn same_shell(a: Shell, b: Shell) -> bool {
    &&& same_but_env(a, b)
    &&& a.env@ == b.env@
}

/// The first argument, if there is one.
pub open spec fn first_arg(args: Seq<Seq<char>>) -> Option<Seq<char>> {
    if args.len() > 0 {
        Some(args[0])
    } else {
        None
    }
}

/// The builtin that a command line's words name.
pub open spec fn command_builtin(words: Seq<Seq<char>>) -> Option<Builtin> {
    if words.len() == 0 {
        None
    } else {
        builtin_named(words[0])
    }
}

/// `shell`, `written` and `ran` are what the builtin makes of `before` with
/// the arguments `args`.
pub open spec fn runs_to(
    builtin: Builtin,
    args: Seq<Seq<char>>,
    before: Shell,
    shell: Shell,
    written: Seq<char>,
    ran: RanView,
) -> bool {
    match builtin {
        Builtin::Cd => same_shell(before, shell) && match cd_target(args, before.env@) {
            Some(dir) => written.len() == 0 && ran == RanView::ChangeDir(dir),
            None => written == complaint("cd: HOME is not set"@) && ran == RanView::Done(1),
        },
        Builtin::Pwd => same_shell(before, shell) && written.len() == 0 && ran
            == RanView::PrintDir,
        Builtin::Echo => same_shell(before, shell) && written == echo_text(args) && ran
            == RanView::Done(0),
        Builtin::Exit => {
            &&& shell.should_exit
            &&& shell.env == before.env
            &&& shell.last_status == before.last_status
            &&& shell.history == before.history
            &&& shell.jobs == before.jobs
            &&& shell.capture == before.capture
            &&& written.len() == 0
            &&& ran == RanView::Done(exit_status(args))
        },
        Builtin::Export => if args.len() == 0 {
            same_shell(before, shell) && lists_env(written, before.env@) && ran
                == RanView::Done(0)
        } else {
            let end = export_all(before.env@, args);
            &&& same_but_env(before, shell)
            &&& shell.env@ == end.vars
            &&& written == end.written
            &&& ran == RanView::Done(
                if end.good {
                    0
                } else {
                    1
                },
            )
        },
        Builtin::Unset => {
            &&& same_but_env(before, shell)
            &&& shell.env@ == without_all(before.env@, args)
            &&& written.len() == 0
            &&& ran == RanView::Done(0)
        },
        Builtin::Env => same_shell(before, shell) && lists_env(written, before.env@) && ran
            == RanView::Done(0),
        Builtin::History => same_shell(before, shell) && written == history_lines(
            texts(before.history@),
        ) && ran == RanView::Done(0),
        Builtin::Jobs => same_shell(before, shell) && written.len() == 0 && ran
            == RanView::ListJobs,
        Builtin::Fg => same_shell(before, shell) && written.len() == 0 && ran
            == RanView::Foreground(first_arg(args)),
        Builtin::Bg => same_shell(before, shell) && written.len() == 0 && ran
            == RanView::Background(first_arg(args)),
    }
}

/// Run `argv` as a builtin. Returns what it came to if it was one, else
/// `None`. Output goes to `out` so builtins compose with pipelines and
/// redirects.
pub fn run(shell: &mut Shell, argv: &[String], out: &mut String) -> (r: Option<Ran>)
    ensures
        ({
            let words = texts(argv@);
            match command_builtin(words) {
                Some(builtin) => r matches Some(ran) && exists|written: Seq<char>|
                    final(out)@ == old(out)@ + written && #[trigger] runs_to(
                        builtin,
                        words.skip(1),
                        *old(shell),
                        *final(shell),
                        written,
                        ran@,
                    ),
                None => r is None && *final(shell) == *old(shell) && final(out)@ == old(out)@,
            }
        }),
{
    let ghost words = texts(argv@);
    let ghost before = out@;
    if argv.len() == 0 {
        return None;
    }
    proof {
        assert(words[0] == argv@[0]@);
    }
    let builtin = match find_builtin(argv[0].as_str()) {
        Some(builtin) => builtin,
        None => {
            return None;
        },
    };
    let args = tail(argv, 1);
    let ghost rest = texts(args@);
    proof {
        if args@.len() > 0 {
            assert(rest[0] == args@[0]@);
        }
    }
    let ghost none = Seq::<char>::empty();
    let ran = match builtin {
        Builtin::Cd => {
            if args.len() > 0 {
                Ran::ChangeDir(args[0].clone())
            } else {
                match shell.env.get("HOME") {
                    Some(home) => Ran::ChangeDir(home),
                    None => Ran::Done(fail(out, "cd: HOME is not set")),
                }
            }
        },
        Builtin::Pwd => Ran::PrintDir,
        Builtin::Echo => Ran::Done(echo(args.as_slice(), out)),
        Builtin::Exit => {
            shell.should_exit = true;
            let mut code: i32 = 0;
            if args.len() > 0 {
                if let Some(n) = parse_i32(args[0].as_str()) {
                    code = n;
                }
            }
            Ran::Done(code)
        },
        Builtin::Export => if args.len() == 0 {
            Ran::Done(print_env(shell, out))
        } else {
            Ran::Done(export(shell, args.as_slice(), out))
        },
        Builtin::Unset => Ran::Done(unset(shell, args.as_slice())),
        Builtin::Env => Ran::Done(print_env(shell, out)),
        Builtin::History => Ran::Done(history(shell, out)),
        Builtin::Jobs => Ran::ListJobs,
        Builtin::Fg => Ran::Foreground(first_of(args.as_slice())),
        Builtin::Bg => Ran::Background(first_of(args.as_slice())),
    };
    proof {
        let written = out@.skip(before.len() as int);
        assert(before + none =~= before);
        assert(out@ =~= before + written);
        assert(forall|text: Seq<char>| #[trigger] (before + text) == out@ ==> text == written) by {
            assert forall|text: Seq<char>| #[trigger] (before + text) == out@ implies text
                == written by {
                assert((before + text).skip(before.len() as int) =~= text);
            }
        }
        assert(runs_to(builtin, rest, *old(shell), *shell, written, ran@));
        assert(rest == words.skip(1));
        assert(command_builtin(words) == Some(builtin));
    }
    Some(ran)
}

/// The first argument, if there is one.
fn first_of(args: &[String]) -> (r: Option<String>)
    ensures
        match r {
            Some(text) => first_arg(texts(args@)) == Some(text@),
            None => first_arg(texts(args@)) is None,
        },
{
    if args.len() > 0 {
        Some(args[0].clone())
    } else {
        None
    }
}

// ---------------------------------------------------------------------------
// Laws.

/// What `export NAME=value` sets, a reference to `NAME` gives back.
pub proof fn law_export_reads_back(
    vars: Map<Seq<char>, Seq<char>>,
    name: Seq<char>,
    value: Seq<char>,
    last_status: i32,
)
    requires
        valid_name(name),
    ensures
        exported(vars, name + "="@ + value) == Some(vars.insert(name, value)),
        value_of(name, vars.insert(name, value), last_status) == Some(value),
{
    reveal_strlit("=");
    assert(is_letter_char(name[0]) || name[0] == '_');
    let arg = name + "="@ + value;
    let k = name.len() as int;
    assert(arg[k] == '=');
    lemma_find_char(arg, 0, '=');
    assert forall|j: int| 0 <= j < k implies arg[j] != '=' by {
        assert(arg[j] == name[j]);
        assert(is_letter_char(name[j]) || name[j] == '_' || is_digit_char(name[j]));
    }
    assert(arg.take(k) =~= name);
    assert(arg.skip(k + 1) =~= value);
}

/// An unset variable is not there any more, and no other changes.
pub proof fn law_unset_removes(vars: Map<Seq<char>, Seq<char>>, name: Seq<char>)
    ensures
        without_all(vars, seq![name]) == vars.remove(name),
{
    assert(seq![name].drop_last() =~= Seq::<Seq<char>>::empty());
    assert(without_all(vars, seq![name].drop_last()) == vars);
}

/// The builtins by their names.
pub open spec fn builtin_table() -> Seq<(Seq<char>, Builtin)> {
    seq![
        (seq!['c', 'd'], Builtin::Cd),
        (seq!['p', 'w', 'd'], Builtin::Pwd),
        (seq!['e', 'c', 'h', 'o'], Builtin::Echo),
        (seq!['e', 'x', 'i', 't'], Builtin::Exit),
        (seq!['e', 'x', 'p', 'o', 'r', 't'], Builtin::Export),
        (seq!['u', 'n', 's', 'e', 't'], Builtin::Unset),
        (seq!['e', 'n', 'v'], Builtin::Env),
        (seq!['h', 'i', 's', 't', 'o', 'r', 'y'], Builtin::History),
        (seq!['j', 'o', 'b', 's'], Builtin::Jobs),
        (seq!['f', 'g'], Builtin::Fg),
        (seq!['b', 'g'], Builtin::Bg),
    ]
}

/// A command is the builtin that its first word names, whatever its arguments.
pub proof fn law_builtins_by_name(i: int, args: Seq<Seq<char>>, name: Seq<char>)
    requires
        0 <= i < 11,
    ensures
        command_builtin(seq![builtin_table()[i].0] + args) == Some(builtin_table()[i].1),
        (forall|k: int| 0 <= k < 11 ==> (#[trigger] builtin_table()[k]).0 != name)
            ==> command_builtin(seq![name] + args) is None,
        command_builtin(Seq::empty()) is None,
{
    let table = builtin_table();
    reveal_strlit("cd");
    reveal_strlit("pwd");
    reveal_strlit("echo");
    reveal_strlit("exit");
    reveal_strlit("export");
    reveal_strlit("unset");
    reveal_strlit("env");
    reveal_strlit("history");
    reveal_strlit("jobs");
    reveal_strlit("fg");
    reveal_strlit("bg");
    assert("cd"@ =~= table[0].0);
    assert("pwd"@ =~= table[1].0);
    assert("echo"@ =~= table[2].0);
    assert("exit"@ =~= table[3].0);
    assert("export"@ =~= table[4].0);
    assert("unset"@ =~= table[5].0);
    assert("env"@ =~= table[6].0);
    assert("history"@ =~= table[7].0);
    assert("jobs"@ =~= table[8].0);
    assert("fg"@ =~= table[9].0);
    assert("bg"@ =~= table[10].0);
    assert("cd"@[0] == 'c' && "fg"@[0] == 'f' && "bg"@[0] == 'b');
    assert("exit"@[1] == 'x' && "export"@[2] == 'p');
    assert("exit"@.len() == 4 && "echo"@.len() == 4 && "jobs"@.len() == 4);
    assert("echo"@[1] == 'c' && "jobs"@[0] == 'j');
    assert("pwd"@[0] == 'p' && "env"@[0] == 'e');
    let words = seq![table[i].0] + args;
    assert(words[0] == table[i].0);
    assert((seq![name] + args)[0] == name);
    assert(table[i] == table[0] || table[i] == table[1] || table[i] == table[2] || table[i]
        == table[3] || table[i] == table[4] || table[i] == table[5] || table[i] == table[6]
        || table[i] == table[7] || table[i] == table[8] || table[i] == table[9] || table[i]
        == table[10]);
}

/// `echo` writes its arguments with a blank between neighbours and a newline at
/// the end; with `-n` in front it leaves the newline out.
pub proof fn law_echo(first: Seq<char>, rest: Seq<Seq<char>>)
    ensures
        echo_text(Seq::empty()) == seq!['\n'],
        first != seq!['-', 'n'] ==> echo_text(seq![first] + rest) == first + led_by(
            rest,
            seq![' '],
        ) + seq!['\n'],
        echo_text(seq![seq!['-', 'n'], first] + rest) == first + led_by(rest, seq![' ']),
        echo_text(seq![seq!['-', 'n']]) == Seq::<char>::empty(),
{
    reveal_strlit("-n");
    reveal_strlit(" ");
    reveal_strlit("\n");
    assert("-n"@ =~= seq!['-', 'n']);
    assert(" "@ =~= seq![' ']);
    assert("\n"@ =~= seq!['\n']);
    law_joining(first, rest, seq![' ']);
    let all = seq![first] + rest;
    assert(all[0] == first);
    let silent = seq![seq!['-', 'n'], first] + rest;
    assert(silent[0] == seq!['-', 'n']);
    assert(silent.skip(1) =~= all);
    let only = seq![seq!['-', 'n']];
    assert(only.skip(1) =~= Seq::<Seq<char>>::empty());
    assert(Seq::<char>::empty() + seq!['\n'] =~= seq!['\n']);
}

/// `exit` leaves with the number in its first argument, or with 0 where there is
/// none.
pub proof fn law_exit(n: nat, text: Seq<char>, k: int, more: Seq<Seq<char>>)
    ensures
        exit_status(Seq::empty()) == 0,
        n <= 0x7fff_ffff ==> exit_status(seq![digits(n)] + more) == n,
        n <= 0x8000_0000 ==> exit_status(seq![seq!['-'] + digits(n)] + more) == -(n as int),
        n > 0x7fff_ffff ==> exit_status(seq![digits(n)] + more) == 0,
        0 <= k < text.len() && !('0' <= text[k] <= '9') && text[0] != '-' && text[0] != '+'
            ==> exit_status(seq![text] + more) == 0,
{
    let min = i32::MIN as int;
    let max = i32::MAX as int;
    assert((seq![digits(n)] + more)[0] == digits(n));
    assert((seq![seq!['-'] + digits(n)] + more)[0] == seq!['-'] + digits(n));
    assert((seq![text] + more)[0] == text);
    law_parse_refuses(text, k, n, min, max);
    lemma_digits_are_digits(n);
    if n <= max {
        law_parse_reads_decimal(n as int, min, max);
        law_parse_signs(n, min, max);
    } else if n == 0x8000_0000 {
        law_parse_reads_decimal(-(n as int), min, max);
        assert(decimal(-(n as int)) =~= seq!['-'] + digits(n));
    }
}

/// `cd` goes to its first argument, or home.
pub proof fn law_cd(
    dir: Seq<char>,
    more: Seq<Seq<char>>,
    vars: Map<Seq<char>, Seq<char>>,
)
    ensures
        cd_target(seq![dir] + more, vars) == Some(dir),
        cd_target(Seq::empty(), vars) == if vars.contains_key(seq!['H', 'O', 'M', 'E']) {
            Some(vars[seq!['H', 'O', 'M', 'E']])
        } else {
            None
        },
{
    reveal_strlit("HOME");
    assert("HOME"@ =~= seq!['H', 'O', 'M', 'E']);
    assert((seq![dir] + more)[0] == dir);
}

/// `export` goes through its arguments in order: what the later ones do comes
/// after what the earlier ones did.
pub proof fn law_export_in_order(
    vars: Map<Seq<char>, Seq<char>>,
    a: Seq<Seq<char>>,
    b: Seq<Seq<char>>,
)
    ensures
        ({
            let first = export_all(vars, a);
            let then = export_all(first.vars, b);
            let all = export_all(vars, a + b);
            &&& all.vars == then.vars
            &&& all.written == first.written + then.written
            &&& all.good == (first.good && then.good)
        }),
    decreases b.len(),
{
    let first = export_all(vars, a);
    let then = export_all(first.vars, b);
    let all = export_all(vars, a + b);
    if b.len() == 0 {
        assert(a + b =~= a);
        assert(first.written + then.written =~= first.written);
    } else {
        law_export_in_order(vars, a, b.drop_last());
        assert((a + b).drop_last() =~= a + b.drop_last());
        assert((a + b).last() == b.last());
        assert(all.written =~= first.written + then.written);
    }
}

/// One argument of `export`: `NAME=value` sets the variable, the name of one
/// alone changes nothing, and anything else is complained about and changes
/// nothing either.
pub proof fn law_export_of_one(
    vars: Map<Seq<char>, Seq<char>>,
    name: Seq<char>,
    value: Seq<char>,
)
    requires
        forall|j: int| 0 <= j < name.len() ==> name[j] != '=',
    ensures
        ({
            let set = export_all(vars, seq![name + seq!['='] + value]);
            let bare = export_all(vars, seq![name]);
            &&& valid_name(name) ==> set.vars == vars.insert(name, value) && set.written
                == Seq::<char>::empty() && set.good
            &&& valid_name(name) ==> bare.vars == vars && bare.written == Seq::<char>::empty()
                && bare.good
            &&& !valid_name(name) ==> {
                &&& !set.good && !bare.good
                &&& set.vars == vars && bare.vars == vars
                &&& set.written == bad_identifier(name + seq!['='] + value)
                &&& bare.written == bad_identifier(name)
            }
        }),
{
    reveal_strlit("comma-shell: ");
    reveal_strlit("export: `");
    reveal_strlit("': not a valid identifier");
    reveal_strlit("\n");
    let whole = name + seq!['='] + value;
    let n = name.len() as int;
    lemma_find_char(whole, 0, '=');
    lemma_find_char(name, 0, '=');
    assert(whole[n] == '=');
    assert forall|j: int| 0 <= j < n implies whole[j] != '=' by {
        assert(whole[j] == name[j]);
    }
    assert(whole.take(n) =~= name);
    assert(whole.skip(n + 1) =~= value);
    let none = Seq::<char>::empty();
    assert(seq![whole].drop_last() =~= Seq::<Seq<char>>::empty());
    assert(seq![name].drop_last() =~= Seq::<Seq<char>>::empty());
    assert(export_all(vars, seq![whole].drop_last()) == Exporting { vars, written: none, good: true });
    assert(export_all(vars, seq![name].drop_last()) == Exporting { vars, written: none, good: true });
    assert(none + export_complaint(whole) =~= bad_identifier(whole));
    assert(none + export_complaint(name) =~= bad_identifier(name));
}

/// The complaint about an identifier.
pub open spec fn bad_identifier(arg: Seq<char>) -> Seq<char> {
    seq![
        'c', 'o', 'm', 'm', 'a', '-', 's', 'h', 'e', 'l', 'l', ':', ' ', 'e', 'x', 'p', 'o', 'r',
        't', ':', ' ', '`',
    ] + arg + seq![
        '\'', ':', ' ', 'n', 'o', 't', ' ', 'a', ' ', 'v', 'a', 'l', 'i', 'd', ' ', 'i', 'd', 'e',
        'n', 't', 'i', 'f', 'i', 'e', 'r', '\n',
    ]
}

/// A name starts with a letter or `_`, and goes on with letters, digits and `_`.
pub proof fn law_names(first: char, rest: Seq<char>, k: int)
    ensures
        valid_name(seq![first]) <==> (('a' <= first <= 'z') || ('A' <= first <= 'Z') || first == '_'),
        valid_name(seq![first]) && valid_name(rest) ==> valid_name(rest.push(first)),
        valid_name(rest) && '0' <= first <= '9' ==> valid_name(rest.push(first)),
        0 <= k < rest.len() && !(('a' <= rest[k] <= 'z') || ('A' <= rest[k] <= 'Z') || rest[k] == '_'
            || (k > 0 && '0' <= rest[k] <= '9')) ==> !valid_name(rest),
        !valid_name(Seq::empty()),
{
    let one = seq![first];
    assert(one[0] == first);
    if valid_name(rest) {
        let longer = rest.push(first);
        assert forall|i: int| 0 <= i < longer.len() && (valid_name(one) || '0' <= first <= '9') implies
            is_letter_char(#[trigger] longer[i]) || longer[i] == '_' || (i > 0 && is_digit_char(
                longer[i],
            )) by {
            if i < rest.len() {
                assert(longer[i] == rest[i]);
            }
        }
    }
}

/// `unset` takes away every variable that it names and keeps the others as they
/// are.
pub proof fn law_unset(
    vars: Map<Seq<char>, Seq<char>>,
    names: Seq<Seq<char>>,
    name: Seq<char>,
)
    ensures
        without_all(vars, names).contains_key(name) <==> vars.contains_key(name) && !names.contains(
            name,
        ),
        without_all(vars, names).contains_key(name) ==> without_all(vars, names)[name] == vars[name],
    decreases names.len(),
{
    if names.len() > 0 {
        law_unset(vars, names.drop_last(), name);
        if names.drop_last().contains(name) {
            let k = choose|k: int|
                0 <= k < names.drop_last().len() && names.drop_last()[k] == name;
            assert(names[k] == name);
        }
        if names.contains(name) && names.last() != name {
            let k = choose|k: int| 0 <= k < names.len() && names[k] == name;
            assert(names.drop_last()[k] == name);
        }
        if names.last() == name {
            assert(names[names.len() - 1] == name);
        }
    }
}

/// The entries are numbered from 1, right-aligned in five columns, two blanks
/// before each line.
pub proof fn law_history_is_numbered(entries: Seq<Seq<char>>, entry: Seq<char>, pad: Seq<char>)
    requires
        forall|k: int| 0 <= k < pad.len() ==> pad[k] == ' ',
        pad.len() + digits(entries.len() + 1).len() == 5 || (pad.len() == 0 && digits(
            entries.len() + 1,
        ).len() > 5),
    ensures
        history_lines(entries.push(entry)) == history_lines(entries) + pad + digits(
            entries.len() + 1,
        ) + seq![' ', ' '] + entry + seq!['\n'],
        history_lines(Seq::empty()) == Seq::<char>::empty(),
{
    reveal_strlit("  ");
    reveal_strlit("\n");
    let all = entries.push(entry);
    assert(all.drop_last() =~= entries);
    let n = digits(entries.len() + 1);
    assert(spaces(5 - n.len()) =~= pad);
    assert(history_lines(all) =~= history_lines(entries) + pad + n + seq![' ', ' '] + entry + seq![
        '\n',
    ]);
}

/// A line for each variable: its name, `=` and its value.
pub proof fn law_env_lines(entries: Seq<(String, String)>, entry: (String, String))
    ensures
        env_lines(entries.push(entry)) == env_lines(entries) + entry.0@ + seq!['='] + entry.1@ + seq![
            '\n',
        ],
        env_lines(Seq::empty()) == Seq::<char>::empty(),
{
    reveal_strlit("=");
    reveal_strlit("\n");
    assert(entries.push(entry).drop_last() =~= entries);
    assert(env_lines(entries.push(entry)) =~= env_lines(entries) + entry.0@ + seq!['='] + entry.1@
        + seq!['\n']);
}

/// A line for each job: its id in brackets, its state and its command.
pub proof fn law_job_lines(jobs: Seq<JobView>, job: JobView)
    ensures
        job_lines(jobs.push(job)) == job_lines(jobs) + seq!['['] + digits(job.id as nat) + seq![
            ']',
            ' ',
            ' ',
        ] + (match job.state {
            JobState::Running => seq!['R', 'u', 'n', 'n', 'i', 'n', 'g'],
            JobState::Stopped => seq!['S', 't', 'o', 'p', 'p', 'e', 'd'],
        }) + seq![' ', ' '] + job.command_line + seq!['\n'],
        job_lines(Seq::empty()) == Seq::<char>::empty(),
{
    reveal_strlit("[");
    reveal_strlit("]  ");
    reveal_strlit("  ");
    reveal_strlit("\n");
    reveal_strlit("Running");
    reveal_strlit("Stopped");
    let all = jobs.push(job);
    assert(all.drop_last() =~= jobs);
    assert(job_lines(all) =~= job_lines(jobs) + seq!['['] + digits(job.id as nat) + seq![
        ']',
        ' ',
        ' ',
    ] + (match job.state {
        JobState::Running => seq!['R', 'u', 'n', 'n', 'i', 'n', 'g'],
        JobState::Stopped => seq!['S', 't', 'o', 'p', 'p', 'e', 'd'],
    }) + seq![' ', ' '] + job.command_line + seq!['\n']);
}

/// Only `export` and `unset` change variables, and only `exit` makes the shell
/// leave. No builtin touches the history, the jobs, the captured output or the
/// status before it is done, and all but `cd` without a home and `export` with a
/// bad name end well; `exit` ends with its own status.
pub proof fn law_builtins_leave_the_rest(
    builtin: Builtin,
    args: Seq<Seq<char>>,
    before: Shell,
    after: Shell,
    written: Seq<char>,
    ran: RanView,
)
    requires
        runs_to(builtin, args, before, after, written, ran),
    ensures
        after.history == before.history,
        after.jobs == before.jobs,
        after.capture == before.capture,
        after.last_status == before.last_status,
        !(builtin is Export || builtin is Unset) ==> after.env@ == before.env@,
        builtin is Export && args.len() == 0 ==> after.env@ == before.env@,
        after.should_exit == (before.should_exit || builtin is Exit),
        builtin is Cd || builtin is Pwd || builtin is Exit || builtin is Unset || builtin is Jobs
            || builtin is Fg || builtin is Bg ==> written.len() == 0 || ran == RanView::Done(1),
        builtin is Echo || builtin is Unset || builtin is Env || builtin is History ==> ran
            == RanView::Done(0),
        builtin is Pwd ==> ran == RanView::PrintDir,
        builtin is Jobs ==> ran == RanView::ListJobs,
        builtin is Fg ==> ran == RanView::Foreground(
            if args.len() == 0 {
                None
            } else {
                Some(args[0])
            },
        ),
        builtin is Bg ==> ran == RanView::Background(
            if args.len() == 0 {
                None
            } else {
                Some(args[0])
            },
        ),
        builtin is Cd ==> (match cd_target(args, before.env@) {
            Some(dir) => ran == RanView::ChangeDir(dir),
            None => ran == RanView::Done(1),
        }),
        builtin is Exit ==> ran == RanView::Done(exit_status(args)),
        builtin is Echo ==> written == echo_text(args),
        builtin is History ==> written == history_lines(texts(before.history@)),
        builtin is Env || (builtin is Export && args.len() == 0) ==> lists_env(written, before.env@),
        builtin is Export && args.len() > 0 ==> {
            let end = export_all(before.env@, args);
            &&& after.env@ == end.vars
            &&& written == end.written
            &&& ran == RanView::Done(if end.good { 0 } else { 1 })
        },
        builtin is Unset ==> after.env@ == without_all(before.env@, args),
{
}

} // verus!
