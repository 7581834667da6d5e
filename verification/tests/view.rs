//! The window around the terminal, and the prompt.

use std::time::Duration;

use comma::prompt::{
    ahead_behind, git_segment, rc_line, render, segment_is_fresh, shortened_cwd,
};
use comma::view::{
    blink_visible, branch_of_head, gitdir_of, head_step, poll_is_due, repaint_delay, shell_path,
    shorten_home, sidebar_label, strip, until_toggle, DotGit, HeadStep, TabAction, TabEvent,
    TabState, TermSize,
};

#[test]
fn blink_phase_alternates() {
    let period = Duration::from_millis(530);
    let visible = |elapsed: Duration| blink_visible(elapsed.as_millis());
    assert!(visible(Duration::ZERO));
    assert!(visible(period - Duration::from_millis(1)));
    assert!(!visible(period));
    assert!(!visible(period * 2 - Duration::from_millis(1)));
    assert!(visible(period * 2));
}

#[test]
fn toggles_come_at_period_ends() {
    assert_eq!(until_toggle(0), 530);
    assert_eq!(until_toggle(529), 1);
    assert_eq!(until_toggle(530), 530);
    for elapsed in [0u64, 1, 529, 530, 1000, 5299] {
        let next = elapsed + until_toggle(elapsed);
        assert_ne!(blink_visible(elapsed as u128), blink_visible(next as u128));
        assert_eq!(blink_visible(elapsed as u128), blink_visible(next as u128 - 1));
    }
}

#[test]
fn repaints_are_a_frame_apart() {
    assert_eq!(repaint_delay(16_000_000), None);
    assert_eq!(repaint_delay(20_000_000), None);
    assert_eq!(repaint_delay(0), Some(16_000_000));
    assert_eq!(repaint_delay(15_999_999), Some(1));
}

#[test]
fn long_labels_are_cut() {
    assert_eq!(sidebar_label("shell 1"), "shell 1");
    let exact = "x".repeat(24);
    assert_eq!(sidebar_label(&exact), exact);
    assert_eq!(sidebar_label(&"é".repeat(25)), format!("{}…", "é".repeat(23)));
}

#[test]
fn tabs_follow_their_terminal() {
    let mut tab = TabState::new(4, "shell 4".into());
    assert_eq!(tab.label(), "shell 4");
    assert!(matches!(tab.apply(TabEvent::Title("vim".into())), TabAction::Nothing));
    assert_eq!(tab.label(), "vim");
    tab.apply(TabEvent::ResetTitle);
    assert_eq!(tab.label(), "shell 4");
    assert!(matches!(tab.apply(TabEvent::PtyWrite("a".into())), TabAction::Write(t) if t == "a"));
    assert!(matches!(tab.apply(TabEvent::ClipboardStore("b".into())), TabAction::CopyText(t) if t == "b"));
    assert!(!tab.dead);
    tab.apply(TabEvent::Exit);
    tab.apply(TabEvent::Other);
    assert!(tab.dead);
    assert_eq!(tab.id, 4);
}

#[test]
fn shells_by_priority() {
    let s = |text: &str| Some(text.to_string());
    assert_eq!(shell_path(s("a"), s("b"), s("c"), s("d")), "a");
    assert_eq!(shell_path(None, s("b"), s("c"), s("d")), "b");
    assert_eq!(shell_path(None, None, s("c"), s("d")), "c");
    assert_eq!(shell_path(None, None, None, s("d")), "d");
    assert_eq!(shell_path(None, None, None, None), "/bin/zsh");
    assert_eq!(TermSize::new(80, 24), TermSize { columns: 80, screen_lines: 24 });
}

#[test]
fn shorten_home_replaces_prefix() {
    let home = "/home/someone";
    assert_eq!(shorten_home(home, Some(home)), "~");
    assert_eq!(shorten_home(&format!("{home}/x"), Some(home)), "~/x");
    assert_eq!(shorten_home("/other/path", Some(home)), "/other/path");
    // A sibling whose name merely starts with $HOME's text is not $HOME.
    assert_eq!(shorten_home(&format!("{home}x"), Some(home)), format!("{home}x"));
    assert_eq!(shorten_home(home, None), home);
}

#[test]
fn git_heads() {
    assert_eq!(branch_of_head("ref: refs/heads/feature/x\n"), "feature/x");
    assert_eq!(branch_of_head("0123456789abcdef\n"), "0123456");
    assert_eq!(branch_of_head(" abc "), "abc");
    assert_eq!(gitdir_of("gitdir: ../x/.git \n").as_deref(), Some("../x/.git"));
    assert_eq!(gitdir_of("nothing"), None);
    assert_eq!(strip("abc", "ab").as_deref(), Some("c"));
    assert_eq!(strip("abc", "b"), None);
}

#[test]
fn head_is_searched_upwards() {
    assert!(matches!(head_step(&DotGit::Directory), HeadStep::Here));
    assert!(matches!(head_step(&DotGit::Missing), HeadStep::Up));
    let worktree = DotGit::File(Some("gitdir: /repo/.git/worktrees/w\n".to_string()));
    assert!(matches!(head_step(&worktree), HeadStep::At(dir) if dir == "/repo/.git/worktrees/w"));
    // A file that says nothing of the kind ends the search.
    assert!(matches!(head_step(&DotGit::File(Some("x".to_string()))), HeadStep::Stop));
    assert!(matches!(head_step(&DotGit::File(None)), HeadStep::Stop));
}

#[test]
fn home_is_shortened_to_tilde() {
    let home = "/home/u";
    assert_eq!(shortened_cwd(home, Some(home)), "~");
    assert_eq!(shortened_cwd(&format!("{home}/some/dir"), Some(home)), "~/some/dir");
    // A directory merely sharing a name prefix is not home.
    assert_eq!(shortened_cwd(&format!("{home}2"), Some(home)), format!("{home}2"));
}

#[test]
fn directories_are_compared_by_component() {
    assert_eq!(shortened_cwd("/home/u", Some("/home//u/")), "~");
    assert_eq!(shortened_cwd("/home/u//a/./b/", Some("/home/./u")), "~/a/./b");
    assert_eq!(shortened_cwd("/home", Some("/home/u")), "/home");
    assert_eq!(shortened_cwd("/a/../b", Some("/a")), "~/../b");
    assert_eq!(shortened_cwd("/x", Some("/")), "~/x");
    assert_eq!(shortened_cwd("/x", None), "/x");
    assert_eq!(shortened_cwd("./x", Some(".")), "~/x");
}

#[test]
fn tab_directories_are_polled_twice_a_second() {
    assert!(poll_is_due(None));
    assert!(!poll_is_due(Some(499_999_999)));
    assert!(poll_is_due(Some(500_000_000)));
}

#[test]
fn prompts() {
    assert_eq!(render(Some("~"), None), "\x1b[36m~\x1b[0m ❯ ");
    assert_eq!(render(None, Some("main")), "\x1b[36m?\x1b[0m  main ❯ ");
}

#[test]
fn git_segments() {
    assert_eq!(git_segment(None, Some("m"), None, None), None);
    assert_eq!(git_segment(Some("false"), Some("m"), None, None), None);
    assert_eq!(git_segment(Some("true"), Some("m"), Some(""), None).unwrap(), "\x1b[35mm\x1b[0m");
    assert_eq!(
        git_segment(Some("true"), None, Some(" M x"), Some("1\t2")).unwrap(),
        "\x1b[35m?\x1b[0m\x1b[31m*\x1b[0m↑1↓2"
    );
}

#[test]
fn tracking_counts() {
    assert_eq!(ahead_behind("0\t0").as_deref(), Some(""));
    assert_eq!(ahead_behind("3\t0").as_deref(), Some("↑3"));
    assert_eq!(ahead_behind("0\t 12 ").as_deref(), Some("↓12"));
    assert_eq!(ahead_behind("1 2"), None);
    assert_eq!(ahead_behind("x\t1"), None);
    assert_eq!(ahead_behind("1\t99999999999"), None);
}

#[test]
fn segments_stay_fresh_for_a_while() {
    assert!(segment_is_fresh(true, 149_999_999));
    assert!(!segment_is_fresh(true, 150_000_000));
    assert!(!segment_is_fresh(false, 0));
}

#[test]
fn startup_lines() {
    assert_eq!(rc_line("  export A=1 \t").as_deref(), Some("export A=1"));
    assert_eq!(rc_line("  # comment"), None);
    assert_eq!(rc_line("   "), None);
}
