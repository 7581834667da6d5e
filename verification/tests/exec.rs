//! Scripts, pipelines, substitutions and jobs, with stand-ins for external
//! commands.

use comma::builtins::{self, Ran};
use comma::expand::{expand_argv, expand_word, Paths};
use comma::job_control::{
    continued_line, exit_code, exit_code_from, exit_code_from_raw, exit_code_of, fate_from, fate_of,
    pids_from, read_status, started_line, stopped_line, wait_outcome, wait_outcome_with, Fate,
    StatusReading, WaitOutcome, WaitState,
};
use comma::parser::{parse, Pipeline, Script};
use comma::pattern::GlobOptions;
use comma::pipeline::{
    is_external, label_of, pipeline_label, pipeline_mode, pick_sink, pick_source,
    resolve_redirects, stage_kind, start_status, touch_status, Mode, Output, Sink, Source,
    Spawning, StageEvent, StageKind, StageRedirects, StageRun, StartError, StdoutTarget,
    unstarted_status,
};
use comma::script::{execute_script, ScriptAction, ScriptRun};
use comma::shell::{poll_news, JobState, News, Shell};
use comma::substitution::{
    begin_substitution, end_substitution, open_substitution, strip_newlines, substitute_pipeline,
    substitutions, write_out,
};

/// No path matches.
fn no_paths(_pattern: &str, _options: GlobOptions) -> Paths {
    Some(Vec::new())
}

/// What the tests did to the world outside the shell.
#[derive(Default)]
struct World {
    terminal: Vec<u8>,
    files: Vec<(String, Vec<u8>)>,
}

impl World {
    fn file(&self, path: &str) -> Option<String> {
        let found = self.files.iter().find(|(name, _)| name == path)?;
        Some(String::from_utf8(found.1.clone()).unwrap())
    }

    fn write_file(&mut self, path: &str, append: bool, bytes: &[u8]) {
        match self.files.iter_mut().find(|(name, _)| name == path) {
            Some((_, old)) => {
                if !append {
                    old.clear();
                }
                old.extend_from_slice(bytes);
            }
            None => self.files.push((path.to_string(), bytes.to_vec())),
        }
    }
}

/// Stand-ins for a few external commands: status and output.
fn external(argv: &[String], input: Option<Vec<u8>>) -> Result<(i32, Vec<u8>), StartError> {
    match argv[0].as_str() {
        "true" => Ok((0, Vec::new())),
        "false" => Ok((1, Vec::new())),
        "cat" => Ok((0, input.unwrap_or_default())),
        "printf" => Ok((0, argv[1].replace("\\n", "\n").into_bytes())),
        _ => Err(StartError::NotFound),
    }
}

fn run_script(shell: &mut Shell, world: &mut World, script: &Script) -> i32 {
    let mut run = ScriptRun::new();
    let mut finished = None;
    loop {
        let pipeline = match execute_script(shell, script, &mut run, finished) {
            ScriptAction::Done(status) => return status,
            ScriptAction::Run(pipeline) => pipeline,
        };
        finished = Some(run_pipeline(shell, world, pipeline));
    }
}

fn run_substitution(shell: &mut Shell, world: &mut World, line: &str) -> String {
    match open_substitution(shell, line) {
        Ok((script, aside)) => {
            run_script(shell, world, &script);
            end_substitution(shell, aside)
        }
        Err(text) => text,
    }
}

fn substituted(shell: &mut Shell, world: &mut World, pipeline: &Pipeline) -> Pipeline {
    let mut outputs = Vec::new();
    for line in substitutions(pipeline) {
        outputs.push(run_substitution(shell, world, &line));
    }
    substitute_pipeline(pipeline, &outputs)
}

/// Run the stages of a pipeline of external commands at once. The pids count
/// from 100.
fn stream_pipeline(shell: &mut Shell, world: &mut World, pipeline: &Pipeline) -> i32 {
    let count = pipeline.cmds.len();
    let mut spawning = Spawning::new();
    let mut pipe = None;
    let mut statuses = Vec::new();
    for (index, cmd) in pipeline.cmds.iter().enumerate() {
        let argv = expand_argv(&cmd.argv, &shell.env, shell.last_status, &no_paths);
        let redirects = resolve_redirects(shell, cmd, index + 1 == count);
        let input = match spawning.next_source(&redirects) {
            Source::File => world.file(redirects.input.as_ref().unwrap()).map(String::into_bytes),
            Source::Previous => pipe.take(),
            Source::Terminal => None,
        };
        let (status, output) = match external(&argv, input) {
            Ok(done) => done,
            Err(error) => {
                let (status, pids) = spawning.failed(error);
                assert_eq!(pids, (100..100 + index as i32).collect::<Vec<i32>>());
                return status;
            }
        };
        let sink = pick_sink(&redirects, shell.capture.is_some());
        spawning.started(100 + index as i32, sink);
        statuses.push(status);
        match (sink, &redirects.out) {
            (Sink::File, StdoutTarget::File { path, append }) => {
                world.write_file(path, *append, &output);
            }
            (Sink::Next, _) => pipe = Some(output),
            _ => {
                if write_out(shell, &output) {
                    world.terminal.extend_from_slice(&output);
                }
            }
        }
    }
    let mut wait = WaitState::new();
    while wait.goes_on(count) {
        let outcome = WaitOutcome { status: statuses[wait.waited], stopped: false };
        wait.saw_stage(count, outcome);
    }
    wait.status
}

fn run_pipeline(shell: &mut Shell, world: &mut World, pipeline: &Pipeline) -> i32 {
    let pipeline = substituted(shell, world, pipeline);
    let mode = pipeline_mode(shell, &pipeline, &no_paths);
    if let Some(status) = unstarted_status(mode) {
        return status;
    }
    if mode == Mode::Streaming {
        return stream_pipeline(shell, world, &pipeline);
    }
    let count = pipeline.cmds.len();
    let mut run = StageRun::new();
    while !run.done {
        let cmd = &pipeline.cmds[run.index];
        let argv = expand_argv(&cmd.argv, &shell.env, shell.last_status, &no_paths);
        let redirects = resolve_redirects(shell, cmd, run.index + 1 == count);
        let event = match stage_kind(&argv) {
            StageKind::Touch => {
                if let StdoutTarget::File { path, append } = &redirects.out {
                    world.write_file(path, *append, b"");
                }
                StageEvent::Touched { status: touch_status(true, true) }
            }
            StageKind::Builtin => {
                let mut out = String::new();
                match builtins::run(shell, &argv, &mut out) {
                    Some(Ran::Done(status)) => {
                        StageEvent::Builtin { status, output: out.into_bytes() }
                    }
                    _ => panic!("not used here"),
                }
            }
            StageKind::External => {
                let data = run.take_input();
                let input = match pick_source(&redirects, data.is_some()) {
                    Source::File => {
                        world.file(redirects.input.as_ref().unwrap()).map(String::into_bytes)
                    }
                    Source::Previous => data,
                    Source::Terminal => None,
                };
                match external(&argv, input) {
                    Err(error) => StageEvent::Failed { status: start_status(error) },
                    Ok((status, output)) => match pick_sink(&redirects, shell.capture.is_some()) {
                        Sink::File => {
                            if let StdoutTarget::File { path, append } = &redirects.out {
                                world.write_file(path, *append, &output);
                            }
                            StageEvent::External { status, captured: None }
                        }
                        Sink::Terminal => {
                            world.terminal.extend_from_slice(&output);
                            StageEvent::External { status, captured: None }
                        }
                        _ => StageEvent::External { status, captured: Some(output) },
                    },
                }
            }
        };
        match run.finish_stage(count, &redirects.out, event, shell.should_exit) {
            Output::Nothing => {}
            Output::Terminal(bytes) => {
                if write_out(shell, &bytes) {
                    world.terminal.extend_from_slice(&bytes);
                }
            }
            Output::File(bytes) => {
                if let StdoutTarget::File { path, append } = &redirects.out {
                    world.write_file(path, *append, &bytes);
                }
            }
        }
    }
    run.status
}

fn run(shell: &mut Shell, world: &mut World, line: &str) -> i32 {
    run_script(shell, world, &parse(line).unwrap())
}

fn shell() -> Shell {
    Shell::with_env(Vec::new())
}

/// Run a substitution command line and return the substituted argv.
fn subst(shell: &mut Shell, line: &str) -> Vec<String> {
    let script = parse(line).unwrap();
    let pipeline = substituted(shell, &mut World::default(), &script.seq[0].first);
    pipeline.cmds[0]
        .argv
        .iter()
        .map(|word| expand_word(word, &shell.env, shell.last_status))
        .collect()
}

#[test]
fn redirect_out_and_append() {
    let mut world = World::default();
    assert_eq!(run(&mut shell(), &mut world, "echo hello > /out"), 0);
    assert_eq!(run(&mut shell(), &mut world, "echo again >> /out"), 0);
    assert_eq!(world.file("/out").unwrap(), "hello\nagain\n");
}

#[test]
fn pipeline_feeds_next_command() {
    let mut world = World::default();
    assert_eq!(run(&mut shell(), &mut world, "echo hello | cat | cat > /out"), 0);
    assert_eq!(world.file("/out").unwrap(), "hello\n");
}

#[test]
fn redirect_in() {
    let mut world = World::default();
    world.write_file("/in", false, b"data\n");
    assert_eq!(run(&mut shell(), &mut world, "cat < /in > /out"), 0);
    assert_eq!(world.file("/out").unwrap(), "data\n");
}

#[test]
fn and_or_uses_exit_status() {
    let mut world = World::default();
    let line = "true && echo ok > /yes; false && echo bad > /no";
    assert_eq!(run(&mut shell(), &mut world, line), 1);
    assert!(world.file("/yes").is_some());
    assert!(world.file("/no").is_none());
    assert_eq!(run(&mut shell(), &mut world, "false || echo fb > /no"), 0);
    assert_eq!(world.file("/no").unwrap(), "fb\n");
}

#[test]
fn unknown_command_is_127() {
    let mut shell = shell();
    assert_eq!(run(&mut shell, &mut World::default(), "definitely-not-a-command-xyz"), 127);
    assert_eq!(shell.last_status, 127);
}

#[test]
fn expansions_apply() {
    let mut shell = Shell::with_env(vec![("FOO".to_string(), "bar".to_string())]);
    let mut world = World::default();
    assert_eq!(run(&mut shell, &mut world, "echo $FOO-x > /out"), 0);
    assert_eq!(world.file("/out").unwrap(), "bar-x\n");
}

#[test]
fn unknown_command_in_streaming_pipeline() {
    let line = "cat /dev/null | definitely-not-a-command-xyz";
    let script = parse(line).unwrap();
    assert_eq!(pipeline_mode(&shell(), &script.seq[0].first, &no_paths), Mode::Streaming);
    assert_eq!(run(&mut shell(), &mut World::default(), line), 127);
}

#[test]
fn streamed_stages_feed_each_other() {
    let mut world = World::default();
    assert_eq!(run(&mut shell(), &mut world, "printf a | cat > /out"), 0);
    assert_eq!(world.file("/out").unwrap(), "a");
    assert_eq!(run(&mut shell(), &mut world, "false | printf b"), 0);
    assert_eq!(world.terminal, b"b");
    assert_eq!(run(&mut shell(), &mut world, "printf c | false"), 1);
}

#[test]
fn background_builtin_is_rejected() {
    // Builtins run in-process and can't be detached.
    let mut shell = shell();
    assert_eq!(run(&mut shell, &mut World::default(), "echo hi &"), 1);
    assert!(shell.jobs.is_empty());
    assert_eq!(shell.last_status, 1);
    let script = parse("echo hi &").unwrap();
    let mode = pipeline_mode(&shell, &script.seq[0].first, &no_paths);
    assert_eq!(unstarted_status(mode), Some(1));
    assert_eq!(unstarted_status(Mode::Detached), None);
}

#[test]
fn bodies_that_do_not_parse_are_not_run() {
    let mut sh = shell();
    sh.capture = Some(b"kept".to_vec());
    sh.should_exit = true;
    assert!(matches!(open_substitution(&mut sh, "a | | b"), Err(text) if text.is_empty()));
    assert_eq!(sh.capture.as_deref(), Some(b"kept".as_slice()));
    assert!(sh.should_exit);
    let Ok((script, aside)) = open_substitution(&mut sh, "exit 3") else {
        panic!("exit parses");
    };
    assert_eq!(script.seq.len(), 1);
    assert_eq!(sh.capture.as_deref(), Some(b"".as_slice()));
    assert!(!sh.should_exit);
    write_out(&mut sh, b"out\n\n");
    sh.should_exit = false;
    assert_eq!(end_substitution(&mut sh, aside), "out");
    assert_eq!(sh.capture.as_deref(), Some(b"kept".as_slice()));
    assert!(sh.should_exit);
}

#[test]
fn substitution_captures_stdout() {
    let mut sh = shell();
    assert_eq!(subst(&mut sh, "echo $(echo inner)"), ["echo", "inner"]);
    // Trailing newlines are stripped.
    assert_eq!(subst(&mut sh, "echo $(printf 'a\\n\\n')"), ["echo", "a"]);
    // Inside double quotes.
    assert_eq!(subst(&mut sh, "echo \"x$(echo y)z\""), ["echo", "xyz"]);
    // Nested substitution.
    assert_eq!(subst(&mut sh, "echo $(echo $(echo x))"), ["echo", "x"]);
    // Single quotes shield it.
    assert_eq!(subst(&mut sh, "echo '$(echo y)'"), ["echo", "$(echo y)"]);
    // Builtins run inside substitutions; variables expand there.
    let mut sh = Shell::with_env(vec![("V".to_string(), "42".to_string())]);
    assert_eq!(subst(&mut sh, "echo $(echo $V)"), ["echo", "42"]);
}

#[test]
fn substitution_failure_is_empty_and_status_is_unaffected() {
    let mut sh = shell();
    assert_eq!(subst(&mut sh, "echo $(false)"), ["echo", ""]);
    assert_eq!(subst(&mut sh, "echo x$(no-such-command-z)y"), ["echo", "xy"]);
    // The failing substitution does not break the outer command.
    assert_eq!(run(&mut sh, &mut World::default(), "echo $(false)"), 0);
}

#[test]
fn substitution_in_streaming_pipeline_and_redirect() {
    let mut world = World::default();
    assert_eq!(run(&mut shell(), &mut world, "echo $(echo streamed) | cat > /out"), 0);
    assert_eq!(world.file("/out").unwrap(), "streamed\n");
    assert_eq!(run(&mut shell(), &mut world, "echo data > $(echo /out)"), 0);
    assert_eq!(world.file("/out").unwrap(), "data\n");
}

#[test]
fn exit_inside_a_substitution_stays_inside() {
    let mut sh = shell();
    let mut world = World::default();
    assert_eq!(run(&mut sh, &mut world, "echo $(exit 3) after"), 0);
    assert!(!sh.should_exit);
    assert_eq!(sh.capture, None);
    assert_eq!(String::from_utf8(world.terminal).unwrap(), "after\n");
}

#[test]
fn exit_ends_the_script() {
    let mut sh = shell();
    let mut world = World::default();
    assert_eq!(run(&mut sh, &mut world, "echo a; exit 4; echo b"), 4);
    assert!(sh.should_exit);
    assert_eq!(sh.last_status, 4);
    assert_eq!(String::from_utf8(world.terminal).unwrap(), "a\n");
    // A link that the status does not admit is passed over, and ends it too.
    let mut sh = shell();
    let mut world = World::default();
    assert_eq!(run(&mut sh, &mut world, "exit 0 || echo no; echo b"), 0);
    assert!(world.terminal.is_empty());
}

#[test]
fn one_pipeline_decides_the_status() {
    for exiting in [false, true] {
        let mut sh = shell();
        sh.should_exit = exiting;
        let script = parse("true").unwrap();
        let mut run = ScriptRun::new();
        let first = execute_script(&mut sh, &script, &mut run, None);
        assert!(matches!(first, ScriptAction::Run(_)));
        let last = execute_script(&mut sh, &script, &mut run, Some(7));
        assert!(matches!(last, ScriptAction::Done(7)));
        assert_eq!(sh.last_status, 7);
    }
}

#[test]
fn skipped_links_keep_the_status() {
    let mut world = World::default();
    assert_eq!(run(&mut shell(), &mut world, "false && echo a || echo b && echo c"), 0);
    assert_eq!(String::from_utf8(world.terminal).unwrap(), "b\nc\n");
    assert_eq!(run(&mut shell(), &mut World::default(), "false && true && true"), 1);
    assert_eq!(run(&mut shell(), &mut World::default(), ""), 0);
}

#[test]
fn bare_redirects_create_files() {
    let mut world = World::default();
    assert_eq!(run(&mut shell(), &mut world, "> /made &"), 0);
    assert_eq!(world.file("/made").unwrap(), "");
    assert_eq!(touch_status(true, false), 1);
    assert_eq!(touch_status(false, true), 1);
}

#[test]
fn modes_by_commands() {
    let sh = shell();
    for (line, mode) in [
        ("cat", Mode::Buffered),
        ("cat | cat", Mode::Streaming),
        ("cat | echo", Mode::Buffered),
        ("cat &", Mode::Detached),
        ("cat | cat &", Mode::Detached),
        ("cat | echo &", Mode::Rejected),
        ("> f &", Mode::Buffered),
        ("$NOTHING | cat", Mode::Buffered),
    ] {
        let script = parse(line).unwrap();
        assert_eq!(pipeline_mode(&sh, &script.seq[0].first, &no_paths), mode, "{line}");
    }
    let script = parse("cat | echo | > f").unwrap();
    let cmds = &script.seq[0].first.cmds;
    assert!(is_external(&sh, &cmds[0], &no_paths));
    assert!(!is_external(&sh, &cmds[1], &no_paths));
    assert!(!is_external(&sh, &cmds[2], &no_paths));
}

#[test]
fn labels_join_words_and_stages() {
    let sh = Shell::with_env(vec![("X".to_string(), "a b".to_string())]);
    let script = parse("cat $X 'c d' | sort").unwrap();
    assert_eq!(pipeline_label(&sh, &script.seq[0].first, &no_paths), "cat a b c d | sort");
    assert_eq!(label_of(&[vec!["sleep".to_string(), "61".to_string()]]), "sleep 61");
}

#[test]
fn last_redirect_of_a_kind_wins() {
    let sh = shell();
    let script = parse("cat < a < b > c >> d 2> e").unwrap();
    let redirects = resolve_redirects(&sh, &script.seq[0].first.cmds[0], false);
    assert_eq!(redirects.input.as_deref(), Some("b"));
    assert!(matches!(&redirects.out, StdoutTarget::File { path, append: true } if path == "d"));
    assert_eq!(redirects.err, Some(("e".to_string(), false)));
    let script = parse("cat").unwrap();
    let cmd = &script.seq[0].first.cmds[0];
    assert!(matches!(resolve_redirects(&sh, cmd, true).out, StdoutTarget::Inherit));
    assert!(matches!(resolve_redirects(&sh, cmd, false).out, StdoutTarget::Capture));
}

#[test]
fn job_ids_reuse_freed_slots() {
    let mut shell = shell();
    assert_eq!(shell.add_job(101, vec![101], "a".into(), JobState::Running), 1);
    assert_eq!(shell.add_job(102, vec![102], "b".into(), JobState::Stopped), 2);
    shell.jobs.retain(|job| job.id != 1); // job 1 finished
    assert_eq!(shell.add_job(103, vec![103], "c".into(), JobState::Running), 1);
}

#[test]
fn job_index_parses_specs() {
    let mut shell = shell();
    assert_eq!(shell.job_index(None), None);
    shell.add_job(201, vec![201], "a".into(), JobState::Running);
    shell.add_job(202, vec![202], "b".into(), JobState::Running);
    assert_eq!(shell.job_index(None), Some(1)); // last job
    assert_eq!(shell.job_index(Some("%1")), Some(0));
    assert_eq!(shell.job_index(Some("2")), Some(1));
    assert_eq!(shell.job_index(Some("%9")), None);
    assert_eq!(shell.job_index(Some("junk")), None);
}

#[test]
fn reap_drops_jobs_whose_processes_are_gone() {
    let mut shell = shell();
    // No such child: the poll fails and the job is dropped.
    shell.add_job(i32::MAX - 1, vec![i32::MAX - 1], "gone".into(), JobState::Running);
    let news = poll_news(i32::MAX - 1, -1, false);
    assert_eq!(news, News::Gone);
    shell.reap_jobs(&[vec![news]]);
    assert!(shell.jobs.is_empty());
}

#[test]
fn reaping_marks_stops_and_keeps_them() {
    let mut shell = shell();
    shell.add_job(10, vec![10, 11, 12], "a".into(), JobState::Running);
    shell.add_job(20, vec![20], "b".into(), JobState::Running);
    assert_eq!(poll_news(11, 11, true), News::Stopped);
    assert_eq!(poll_news(11, 11, false), News::Gone);
    assert_eq!(poll_news(11, 0, false), News::Nothing);
    shell.reap_jobs(&[vec![News::Gone, News::Stopped, News::Nothing], vec![News::Nothing]]);
    assert_eq!(shell.jobs.len(), 2);
    assert_eq!(shell.jobs[0].pids, vec![11, 12]);
    assert_eq!(shell.jobs[0].state, JobState::Stopped);
    assert_eq!(shell.jobs[1].state, JobState::Running);
    // No news does not make a stopped job run again.
    shell.reap_jobs(&[vec![News::Nothing, News::Nothing], vec![News::Gone]]);
    assert_eq!(shell.jobs.len(), 1);
    assert_eq!(shell.jobs[0].state, JobState::Stopped);
}

#[test]
fn foreground_waits_and_background_continues() {
    let mut shell = shell();
    let mut out = String::new();
    assert_eq!(shell.foreground(None, &mut out), Err(1));
    assert_eq!(shell.background(Some("%3"), &mut out), Err(1));
    assert_eq!(out, "comma-shell: fg: no such job\ncomma-shell: bg: no such job\n");

    shell.add_job(10, vec![10, 11], "sleep 9".into(), JobState::Stopped);
    let mut out = String::new();
    assert_eq!(shell.background(Some("1"), &mut out), Ok(0));
    assert_eq!(out, "[1]  sleep 9\n");
    assert_eq!(shell.jobs[0].state, JobState::Running);

    // The second process stops: the job stays with it.
    let mut out = String::new();
    let index = shell.foreground(Some("%1"), &mut out).unwrap();
    let mut wait = WaitState::new();
    assert!(wait.goes_on(2));
    wait.saw_process(Some(Fate::Exited(3)));
    assert_eq!(wait.status, 3);
    wait.saw_process(Some(Fate::Stopped(20)));
    assert!(!wait.goes_on(5));
    assert_eq!(shell.end_foreground(index, wait, &mut out), 148);
    assert_eq!(out, "[1]+ Stopped  sleep 9\n");
    assert_eq!(shell.jobs[0].pids, vec![11]);
    assert_eq!(shell.jobs[0].state, JobState::Stopped);

    // It ends: the job leaves the table.
    let index = shell.foreground(None, &mut out).unwrap();
    let mut wait = WaitState::new();
    wait.saw_process(None);
    assert_eq!(wait.status, 0);
    assert_eq!(shell.end_foreground(index, wait, &mut out), 0);
    assert!(shell.jobs.is_empty());
}

#[test]
fn fates_and_exit_codes() {
    assert_eq!(exit_code_of(Fate::Exited(7)), 7);
    assert_eq!(exit_code_of(Fate::Killed(9)), 137);
    assert_eq!(exit_code_of(Fate::Other), 1);
    assert_eq!(exit_code(Some(5), None), 5);
    assert_eq!(exit_code(None, Some(2)), 130);
    assert_eq!(exit_code(None, None), 1);
    let stopped = wait_outcome_with(Fate::Stopped(19), 20);
    assert_eq!(stopped, WaitOutcome { status: 148, stopped: true });
    assert_eq!(
        wait_outcome(Fate::Exited(2)),
        WaitOutcome { status: 2, stopped: false }
    );
    assert!(wait_outcome(Fate::Stopped(5)).stopped);
    assert_eq!(wait_outcome(Fate::Stopped(5)).status, 128 + libc::SIGTSTP);
}

#[test]
fn raw_statuses_decode_as_the_system_encodes_them() {
    // Exit code 3, killed by signal 9, stopped by signal 20.
    assert_eq!(fate_of(3 << 8), Fate::Exited(3));
    assert_eq!(fate_of(9), Fate::Killed(9));
    assert_eq!(fate_of((20 << 8) | 0x7f), Fate::Stopped(20));
    assert_eq!(exit_code_from_raw(3 << 8), 3);
    assert_eq!(exit_code_from_raw(9), 137);
    assert_eq!(exit_code_from_raw((20 << 8) | 0x7f), 1);
    let stopped = read_status((20 << 8) | 0x7f);
    assert!(stopped.stopped && !stopped.exited && !stopped.killed);
    assert_eq!(stopped.stop_signal, 20);
    let killed = read_status(9);
    assert!(killed.killed && !killed.exited && !killed.stopped);
    assert_eq!(killed.kill_signal, 9);
    assert!(read_status(3 << 8).exited);
    // A status of 0 is success.
    assert_eq!(fate_of(0), Fate::Exited(0));
    assert_eq!(exit_code_from_raw(0), 0);
    let success = read_status(0);
    assert!(success.exited && !success.killed && !success.stopped);
    assert_eq!(success.exit_code, 0);
}

#[test]
fn readings_are_asked_for_a_stop_first() {
    let all = StatusReading {
        stopped: true,
        stop_signal: 1,
        exited: true,
        exit_code: 2,
        killed: true,
        kill_signal: 3,
    };
    assert_eq!(fate_from(all), Fate::Stopped(1));
    assert_eq!(fate_from(StatusReading { stopped: false, ..all }), Fate::Exited(2));
    let killed = StatusReading { stopped: false, exited: false, ..all };
    assert_eq!(fate_from(killed), Fate::Killed(3));
    assert_eq!(fate_from(StatusReading { killed: false, ..killed }), Fate::Other);
}

#[test]
fn exit_codes_are_asked_for_an_exit_first() {
    // A stop plays no part in the exit code.
    let all = StatusReading {
        stopped: true,
        stop_signal: 1,
        exited: true,
        exit_code: 2,
        killed: true,
        kill_signal: 3,
    };
    assert_eq!(exit_code_from(all), 2);
    assert_eq!(exit_code_from(StatusReading { exited: false, ..all }), 131);
    assert_eq!(exit_code_from(StatusReading { exited: false, killed: false, ..all }), 1);
    let ended = StatusReading { stopped: false, ..all };
    assert_eq!(exit_code_of(fate_from(ended)), exit_code_from(ended));
}

#[test]
fn first_stop_or_last_process_decides_a_job() {
    let waited = |fates: &[Option<Fate>]| {
        let mut wait = WaitState::new();
        while wait.goes_on(fates.len()) {
            wait.saw_process(fates[wait.waited]);
        }
        (wait.waited, wait.status, wait.stopped_at)
    };
    let stops = [Some(Fate::Exited(1)), Some(Fate::Stopped(20)), Some(Fate::Stopped(5))];
    assert_eq!(waited(&stops), (2, 148, Some(1)));
    assert_eq!(waited(&[Some(Fate::Exited(4)), Some(Fate::Killed(9)), None]), (3, 137, None));
    assert_eq!(waited(&[None, None]), (2, 0, None));
    assert_eq!(waited(&[]), (0, 0, None));
}

#[test]
fn last_stage_decides_the_status() {
    let outcome = |status, stopped| WaitOutcome { status, stopped };
    let mut wait = WaitState::new();
    wait.saw_stage(2, outcome(1, false));
    assert_eq!((wait.status, wait.stopped_at), (0, None));
    wait.saw_stage(2, outcome(0, false));
    assert_eq!((wait.status, wait.stopped_at), (0, None));
    let mut wait = WaitState::new();
    wait.saw_stage(3, outcome(0, false));
    wait.saw_stage(3, outcome(148, true));
    assert_eq!((wait.status, wait.stopped_at), (148, Some(1)));
    assert!(!wait.goes_on(3));
    assert_eq!(pids_from(&[7, 8, 9], 1), vec![8, 9]);
}

#[test]
fn job_messages() {
    assert_eq!(stopped_line(2, "a | b"), "[2]+ Stopped  a | b");
    assert_eq!(continued_line(12, "x"), "[12]  x");
    assert_eq!(started_line(1, 4711), "[1] 4711");
}

#[test]
fn spawning_shares_a_group_and_pipes() {
    let plain = |out| StageRedirects { out, err: None, input: None };
    let mut spawning = Spawning::new();
    assert_eq!(spawning.next_source(&plain(StdoutTarget::Capture)), Source::Terminal);
    spawning.started(50, Sink::Next);
    assert_eq!((spawning.group, spawning.piped), (50, true));
    let from_file = StageRedirects {
        out: StdoutTarget::Capture,
        err: None,
        input: Some("f".to_string()),
    };
    assert_eq!(spawning.next_source(&from_file), Source::File);
    assert!(spawning.piped);
    assert_eq!(spawning.next_source(&plain(StdoutTarget::Inherit)), Source::Previous);
    assert!(!spawning.piped);
    spawning.started(51, Sink::Terminal);
    assert_eq!((spawning.group, spawning.pids.clone()), (50, vec![50, 51]));
    // A stage that cannot be started: the others have to go.
    assert_eq!(spawning.failed(StartError::NotFound), (127, vec![50, 51]));
    assert_eq!(Spawning::new().failed(StartError::Redirect), (1, vec![]));
    assert_eq!(pick_sink(&plain(StdoutTarget::Inherit), true), Sink::Buffer);
    assert_eq!(pick_sink(&plain(StdoutTarget::Inherit), false), Sink::Terminal);
    assert_eq!(pick_sink(&plain(StdoutTarget::Capture), false), Sink::Next);
}

#[test]
fn start_errors_have_statuses() {
    assert_eq!(start_status(StartError::NotFound), 127);
    assert_eq!(start_status(StartError::Redirect), 1);
    assert_eq!(start_status(StartError::Other), 1);
}

#[test]
fn lost_output_fails_the_stage() {
    let mut run = StageRun::new();
    let target = StdoutTarget::File { path: "f".to_string(), append: false };
    let event = StageEvent::Builtin { status: 0, output: b"x".to_vec() };
    assert!(matches!(run.finish_stage(1, &target, event, false), Output::File(bytes) if bytes == b"x"));
    assert_eq!(run.status, 0);
    run.output_lost();
    assert_eq!(run.status, 1);
    assert!(run.done);
}

#[test]
fn output_is_read_as_text() {
    let mut sh = shell();
    let aside = begin_substitution(&mut sh);
    assert!(!write_out(&mut sh, "é".as_bytes()));
    assert!(!write_out(&mut sh, b"\xff\n\n"));
    assert_eq!(end_substitution(&mut sh, aside), "é\u{fffd}");
    assert!(write_out(&mut sh, b"x"));
    assert_eq!(strip_newlines("a\n\nb\n\n"), "a\n\nb");
    assert_eq!(strip_newlines("\n"), "");
}

#[test]
fn quoted_and_unquoted_outputs_differ() {
    let mut sh = shell();
    let mut world = World::default();
    run(&mut sh, &mut world, "echo $(printf 'a  b') \"$(printf 'a  b')\"");
    assert_eq!(String::from_utf8(world.terminal).unwrap(), "a b a  b\n");
    let script = parse("a $(x) > \"$(y)\" | $(z)").unwrap();
    assert_eq!(substitutions(&script.seq[0].first), ["x", "y", "z"]);
    let outs = ["1".to_string(), "2".to_string(), "3".to_string()];
    let filled = substitute_pipeline(&script.seq[0].first, &outs);
    assert!(substitutions(&filled).is_empty());
}
