//! Builtins.

use comma::builtins::{
    cd_done, is_builtin, is_valid_name, list_jobs, names, pwd_done, run, Ran,
};
use comma::shell::{JobState, Shell};

fn shell() -> Shell {
    Shell::with_env(vec![("FOO".to_string(), "bar".to_string())])
}

fn ran(shell: &mut Shell, argv: &[&str], out: &mut String) -> Option<Ran> {
    let argv: Vec<String> = argv.iter().map(|s| s.to_string()).collect();
    run(shell, &argv, out)
}

fn capture(shell: &mut Shell, argv: &[&str]) -> (i32, String) {
    let mut out = String::new();
    match ran(shell, argv, &mut out) {
        Some(Ran::Done(status)) => (status, out),
        _ => panic!("{argv:?} is not done"),
    }
}

#[test]
fn echo_works() {
    let (status, text) = capture(&mut shell(), &["echo", "a", "b"]);
    assert_eq!((status, text.as_str()), (0, "a b\n"));
    let (_, text) = capture(&mut shell(), &["echo", "-n", "a"]);
    assert_eq!(text, "a");
}

#[test]
fn export_and_unset() {
    let mut shell = shell();
    let (status, _) = capture(&mut shell, &["export", "A=1", "B=two"]);
    assert_eq!(status, 0);
    assert_eq!(shell.env.get("B").unwrap(), "two");
    let (_, _) = capture(&mut shell, &["unset", "A", "FOO"]);
    assert!(!shell.env.contains_key("A"));
    assert!(!shell.env.contains_key("FOO"));
    let (status, _) = capture(&mut shell, &["export", "1BAD=x"]);
    assert_eq!(status, 1);
}

#[test]
fn env_lists_variables() {
    let (status, text) = capture(&mut shell(), &["env"]);
    assert_eq!(status, 0);
    assert!(text.contains("FOO=bar"));
}

#[test]
fn exit_sets_flag() {
    let mut shell = shell();
    let (status, _) = capture(&mut shell, &["exit", "3"]);
    assert_eq!(status, 3);
    assert!(shell.should_exit);
}

#[test]
fn names_and_dispatch_are_in_sync() {
    for name in names() {
        assert!(is_builtin(&name));
        assert!(ran(&mut shell(), &[&name], &mut String::new()).is_some(), "{name} not dispatched");
    }
    assert_eq!(names().len(), 11);
    assert!(!is_builtin("ls"));
    assert!(ran(&mut shell(), &["ls"], &mut String::new()).is_none());
    assert!(ran(&mut shell(), &[], &mut String::new()).is_none());
}

#[test]
fn echo_edge_cases() {
    assert_eq!(capture(&mut shell(), &["echo"]), (0, "\n".to_string()));
    assert_eq!(capture(&mut shell(), &["echo", "-n"]), (0, String::new()));
    assert_eq!(capture(&mut shell(), &["echo", "a", "-n"]), (0, "a -n\n".to_string()));
}

#[test]
fn exit_without_a_number_is_zero() {
    assert_eq!(capture(&mut shell(), &["exit"]).0, 0);
    assert_eq!(capture(&mut shell(), &["exit", "x"]).0, 0);
    assert_eq!(capture(&mut shell(), &["exit", "-1"]).0, -1);
}

#[test]
fn export_complains_and_goes_on() {
    let mut shell = shell();
    let (status, text) = capture(&mut shell, &["export", "1BAD=x", "OK=a=b", "NAME", "no-name"]);
    assert_eq!(status, 1);
    assert_eq!(
        text,
        "comma-shell: export: `1BAD=x': not a valid identifier\n\
         comma-shell: export: `no-name': not a valid identifier\n"
    );
    assert_eq!(shell.env.get("OK").unwrap(), "a=b");
    assert!(!shell.env.contains_key("NAME"));
    let (status, text) = capture(&mut shell, &["export"]);
    assert_eq!((status, text.as_str()), (0, "FOO=bar\nOK=a=b\n"));
}

#[test]
fn valid_names() {
    for (name, valid) in
        [("a", true), ("_9", true), ("9a", false), ("", false), ("a-b", false), ("é", false)]
    {
        assert_eq!(is_valid_name(name), valid, "{name}");
    }
}

#[test]
fn history_is_numbered() {
    let mut shell = shell();
    for i in 0..10 {
        shell.history.push(format!("cmd {i}"));
    }
    let (_, text) = capture(&mut shell, &["history"]);
    assert!(text.starts_with("    1  cmd 0\n    2  cmd 1\n"));
    assert!(text.ends_with("   10  cmd 9\n"));
}

#[test]
fn cd_and_pwd_ask_for_the_outside() {
    let mut out = String::new();
    match ran(&mut shell(), &["cd", "/x"], &mut out) {
        Some(Ran::ChangeDir(dir)) => assert_eq!(dir, "/x"),
        _ => panic!("cd"),
    }
    let mut home = Shell::with_env(vec![("HOME".to_string(), "/h".to_string())]);
    match ran(&mut home, &["cd"], &mut out) {
        Some(Ran::ChangeDir(dir)) => assert_eq!(dir, "/h"),
        _ => panic!("cd"),
    }
    assert_eq!(capture(&mut shell(), &["cd"]), (1, "comma-shell: cd: HOME is not set\n".to_string()));
    assert!(matches!(ran(&mut shell(), &["pwd"], &mut out), Some(Ran::PrintDir)));
    assert_eq!(cd_done("/x", None, &mut out), 0);
    assert_eq!(pwd_done(Ok("/d"), &mut out), 0);
    assert_eq!(out, "/d\n");
    let mut out = String::new();
    assert_eq!(cd_done("/x", Some("gone"), &mut out), 1);
    assert_eq!(pwd_done(Err("lost"), &mut out), 1);
    assert_eq!(out, "comma-shell: cd: /x: gone\ncomma-shell: pwd: lost\n");
}

#[test]
fn jobs_are_listed() {
    let mut shell = shell();
    let mut out = String::new();
    assert!(matches!(ran(&mut shell, &["jobs"], &mut out), Some(Ran::ListJobs)));
    shell.add_job(5, vec![5], "sleep 1".into(), JobState::Running);
    shell.add_job(6, vec![6], "cat".into(), JobState::Stopped);
    assert_eq!(list_jobs(&shell, &mut out), 0);
    assert_eq!(out, "[1]  Running  sleep 1\n[2]  Stopped  cat\n");
    match ran(&mut shell, &["fg", "%2"], &mut out) {
        Some(Ran::Foreground(job)) => assert_eq!(job.as_deref(), Some("%2")),
        _ => panic!("fg"),
    }
    match ran(&mut shell, &["bg"], &mut out) {
        Some(Ran::Background(job)) => assert_eq!(job, None),
        _ => panic!("bg"),
    }
}

#[test]
fn exported_values_read_back() {
    let mut shell = shell();
    for (name, value) in [("A", ""), ("_b", "x=y"), ("C3", " spaced ")] {
        capture(&mut shell, &["export", &format!("{name}={value}")]);
        assert_eq!(shell.env.get(name).unwrap(), value);
    }
}

#[test]
fn typed_lines_go_into_the_history() {
    let mut shell = shell();
    assert_eq!(shell.accept_line("  echo a \t").as_deref(), Some("echo a"));
    assert_eq!(shell.accept_line(" \t "), None);
    assert_eq!(shell.accept_line(""), None);
    assert_eq!(shell.accept_line("pwd").as_deref(), Some("pwd"));
    assert_eq!(shell.history, ["echo a", "pwd"]);
    assert_eq!(shell.last_status, 0);
    assert_eq!(capture(&mut shell, &["history"]).1, "    1  echo a\n    2  pwd\n");
}
