//! Line highlighting.

use comma::highlight::{highlight_line, highlight_with, literal_word, names_to_look_up};
use comma::lexer::Part;

/// Strip ANSI SGR sequences from a styled string.
fn strip_ansi(styled: &str) -> String {
    let mut out = String::new();
    let mut chars = styled.chars();
    while let Some(c) = chars.next() {
        if c == '\x1b' {
            for c in chars.by_ref() {
                if c == 'm' {
                    break;
                }
            }
        } else {
            out.push(c);
        }
    }
    out
}

fn known(name: &str) -> bool {
    matches!(name, "echo" | "ls")
}

#[test]
fn highlight_keeps_text_and_width() {
    for line in [
        "echo hello",
        "ls -la | grep x > out",
        "unknown-cmd --flag",
        "echo 'a | b' ; ls",
        "écho unicode-テスト | ls",
        "",
    ] {
        let styled = highlight_line(line, known);
        assert_eq!(strip_ansi(&styled), line, "text changed for {line:?}");
    }
}

#[test]
fn known_command_is_green_unknown_is_red() {
    let styled = highlight_line("echo hi", known);
    assert!(styled.contains("\x1b[32mecho\x1b[0m"), "styled: {styled:?}");

    let styled = highlight_line("nope hi", known);
    assert!(styled.contains("\x1b[31mnope\x1b[0m"), "styled: {styled:?}");
}

#[test]
fn operators_are_cyan_and_command_position_resets() {
    let styled = highlight_line("echo a | ls", known);
    assert!(styled.contains("\x1b[36m|\x1b[0m"), "styled: {styled:?}");
    // After the pipe, `ls` is a command again: green.
    assert!(styled.contains("\x1b[32mls\x1b[0m"), "styled: {styled:?}");
    // But `a` is an argument: no color.
    assert!(!styled.contains("\x1b[32ma\x1b[0m"), "styled: {styled:?}");

    let styled = highlight_line("echo a > out", known);
    assert!(styled.contains("\x1b[36m>\x1b[0m"), "styled: {styled:?}");
    // Redirect target is not a command: no color.
    assert!(!styled.contains("out\x1b[0m"), "styled: {styled:?}");
}

#[test]
fn lexer_errors_stay_unstyled() {
    let styled = highlight_line("echo 'unterminated", known);
    assert_eq!(styled, "echo 'unterminated");
}

#[test]
fn quoted_and_variable_commands() {
    // Quoted name: quotes are part of the span, the whole span is styled.
    let styled = highlight_line("'echo' hi", known);
    assert!(styled.contains("\x1b[32m'echo'\x1b[0m"), "styled: {styled:?}");
    // A name built from a variable cannot be validated: unstyled.
    let styled = highlight_line("$CMD hi", known);
    assert_eq!(styled, "$CMD hi");
}

#[test]
fn lookups_are_asked_for_in_order() {
    let names = names_to_look_up("echo a | ls; 'x'y $V && z > q");
    assert_eq!(names, vec!["echo", "ls", "xy", "z"]);
    let styled = highlight_with("echo | ls", &[false, true]);
    assert_eq!(styled, "\x1b[31mecho\x1b[0m \x1b[36m|\x1b[0m \x1b[32mls\x1b[0m");
    assert!(names_to_look_up("echo 'open").is_empty());
}

#[test]
fn only_literal_words_have_a_name() {
    assert_eq!(literal_word(&[Part::Lit("a".into()), Part::QLit("b".into())]), Some("ab".into()));
    assert_eq!(literal_word(&[]), Some(String::new()));
    assert_eq!(literal_word(&[Part::Lit("a".into()), Part::Tilde]), None);
}

#[test]
fn only_color_codes_are_added() {
    let green = "\x1b[32m";
    let red = "\x1b[31m";
    let cyan = "\x1b[36m";
    let reset = "\x1b[0m";
    assert_eq!(
        highlight_line("  ls -a|nope  >f && $X ls ", known),
        format!(
            "  {green}ls{reset} -a{cyan}|{reset}{red}nope{reset}  {cyan}>{reset}f \
             {cyan}&&{reset} $X ls "
        )
    );
    assert_eq!(highlight_line("ls 'open", known), "ls 'open");
}
