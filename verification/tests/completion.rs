//! Tab completion.

use comma::completion::{
    byte_index, candidates, char_index, complete, position, word_start, Position,
};

fn strings(words: &[&str]) -> Vec<String> {
    words.iter().map(|w| w.to_string()).collect()
}

#[test]
fn command_and_argument_positions() {
    assert_eq!(position("", 0), Position::Command);
    assert_eq!(position("ec", 2), Position::Command);
    assert_eq!(position("echo hi", 7), Position::Argument);
    assert_eq!(position("echo hi", 4), Position::Command); // completing `echo` itself
    assert_eq!(position("echo ", 5), Position::Argument); // fresh word after a space
    assert_eq!(position("echo a | l", 10), Position::Command);
    assert_eq!(position("echo a && l", 11), Position::Command);
    assert_eq!(position("echo a ; l", 10), Position::Command);
    assert_eq!(position("cat > out", 9), Position::Argument); // redirect target
}

#[test]
fn lexer_error_falls_back_to_paths() {
    assert_eq!(position("echo 'unterminated", 18), Position::Argument);
    assert_eq!(position("'unterminated", 13), Position::Argument);
}

#[test]
fn complete_command_position_uses_command_list() {
    let commands = strings(&["echo", "exit", "env", "ls"]);
    let files = strings(&["earnings.txt"]);
    let (start, found) = complete("e", 1, &commands, &files);
    assert_eq!(start, 0);
    assert_eq!(found, strings(&["echo", "env", "exit"]));
    // After an operator the command list applies again.
    let (start, found) = complete("ls | ex", 7, &commands, &files);
    assert_eq!(start, 5);
    assert_eq!(found, strings(&["exit"]));
}

#[test]
fn complete_argument_position_uses_file_list() {
    let commands = strings(&["echo"]);
    let files = strings(&["src", "src.rs", "target"]);
    let (start, found) = complete("cat s", 5, &commands, &files);
    assert_eq!(start, 4);
    assert_eq!(found, strings(&["src", "src.rs"]));
}

#[test]
fn word_start_stops_at_operators_and_space() {
    assert_eq!(word_start("echo hi", 7), 5);
    assert_eq!(word_start("ls|ca", 5), 3);
    assert_eq!(word_start("ls>o", 4), 3);
    assert_eq!(word_start("", 0), 0);
}

#[test]
fn candidates_are_sorted_and_deduped() {
    let choices = strings(&["b", "ab", "a", "ab", "ac", "é"]);
    assert_eq!(candidates("a", &choices), strings(&["a", "ab", "ac"]));
    assert_eq!(candidates("", &choices), strings(&["a", "ab", "ac", "b", "é"]));
    assert_eq!(candidates("zz", &choices), strings(&[]));
}

#[test]
fn positions_past_the_end_are_clamped() {
    assert_eq!(word_start("echo hi", 100), 5);
    assert_eq!(position("echo a & l", 10), Position::Command);
    assert_eq!(position("cat < f", 6), Position::Argument);
}

#[test]
fn cursors_count_bytes_and_characters() {
    let line = "aé€😀z";
    for (index, (byte, _)) in line.char_indices().enumerate() {
        assert_eq!(char_index(line, byte), index);
        assert_eq!(byte_index(line, index), byte);
    }
    assert_eq!(char_index(line, line.len()), 5);
    assert_eq!(byte_index(line, 5), 11);
    // Inside a character, and past the end.
    assert_eq!(char_index(line, 2), 2);
    assert_eq!(char_index(line, 99), 5);
    assert_eq!(byte_index(line, 99), 11);
    assert_eq!(char_index("", 0), 0);
}
