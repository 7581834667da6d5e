//! Keyboard and pointer translation.

use comma::input::{
    ctrl_byte, digit_index, encode_mouse, handle_event, held_of, is_shortcut, is_typing,
    key_to_bytes, mouse_button_cb, mouse_encoding, mouse_motion_cb, mouse_selects, paste_bytes, sgr_mouse,
    shortcut_action, wheel_scrolls,
    InputAction, InputEvent, Key, Modifiers, MouseEncoding, PointerButton, ShortcutAction,
    TermModes,
};

const NONE: Modifiers = Modifiers { alt: false, ctrl: false, shift: false, command: false };
const CTRL: Modifiers = Modifiers { ctrl: true, ..NONE };
const CMD: Modifiers = Modifiers { command: true, ..NONE };
const SHIFT: Modifiers = Modifiers { shift: true, ..NONE };

fn bytes(key: Key, mods: Modifiers, app_cursor: bool) -> Option<Vec<u8>> {
    key_to_bytes(key, mods, app_cursor, false)
}

fn kitty_bytes(key: Key, mods: Modifiers) -> Option<Vec<u8>> {
    key_to_bytes(key, mods, false, true)
}

#[test]
fn arrows_respect_app_cursor_mode() {
    for (key, normal, app) in [
        (Key::ArrowUp, "\x1b[A", "\x1bOA"),
        (Key::ArrowDown, "\x1b[B", "\x1bOB"),
        (Key::ArrowRight, "\x1b[C", "\x1bOC"),
        (Key::ArrowLeft, "\x1b[D", "\x1bOD"),
        (Key::Home, "\x1b[H", "\x1bOH"),
        (Key::End, "\x1b[F", "\x1bOF"),
    ] {
        assert_eq!(bytes(key, NONE, false).as_deref(), Some(normal.as_bytes()));
        assert_eq!(bytes(key, NONE, true).as_deref(), Some(app.as_bytes()));
    }
}

#[test]
fn special_keys() {
    for (key, expected) in [
        (Key::Enter, "\r"),
        (Key::Backspace, "\x7f"),
        (Key::Tab, "\t"),
        (Key::Escape, "\x1b"),
        (Key::Delete, "\x1b[3~"),
        (Key::Insert, "\x1b[2~"),
        (Key::PageUp, "\x1b[5~"),
        (Key::PageDown, "\x1b[6~"),
    ] {
        assert_eq!(bytes(key, NONE, false).as_deref(), Some(expected.as_bytes()));
    }
    // BackTab.
    assert_eq!(bytes(Key::Tab, SHIFT, false).as_deref(), Some(b"\x1b[Z".as_slice()));
}

#[test]
fn function_keys() {
    for (key, expected) in [
        (Key::F1, "\x1bOP"),
        (Key::F2, "\x1bOQ"),
        (Key::F3, "\x1bOR"),
        (Key::F4, "\x1bOS"),
        (Key::F5, "\x1b[15~"),
        (Key::F6, "\x1b[17~"),
        (Key::F7, "\x1b[18~"),
        (Key::F8, "\x1b[19~"),
        (Key::F9, "\x1b[20~"),
        (Key::F10, "\x1b[21~"),
        (Key::F11, "\x1b[23~"),
        (Key::F12, "\x1b[24~"),
    ] {
        assert_eq!(bytes(key, NONE, false).as_deref(), Some(expected.as_bytes()));
    }
}

#[test]
fn ctrl_letters_produce_control_codes() {
    for (key, byte) in [
        (Key::A, 0x01),
        (Key::C, 0x03),
        (Key::D, 0x04),
        (Key::L, 0x0c),
        (Key::W, 0x17),
        (Key::Z, 0x1a),
        (Key::Space, 0x00),
        (Key::OpenBracket, 0x1b),
        (Key::Backslash, 0x1c),
        (Key::CloseBracket, 0x1d),
    ] {
        assert_eq!(bytes(key, CTRL, false), Some(vec![byte]));
    }
    // All letters map to 0x01..=0x1a in order.
    for (i, key) in [
        Key::A, Key::B, Key::C, Key::D, Key::E, Key::F, Key::G, Key::H, Key::I, Key::J,
        Key::K, Key::L, Key::M, Key::N, Key::O, Key::P, Key::Q, Key::R, Key::S, Key::T,
        Key::U, Key::V, Key::W, Key::X, Key::Y, Key::Z,
    ]
    .into_iter()
    .enumerate()
    {
        assert_eq!(bytes(key, CTRL, false), Some(vec![i as u8 + 1]));
    }
}

#[test]
fn command_keys_are_app_shortcuts() {
    assert_eq!(bytes(Key::T, CMD, false), None);
    assert_eq!(bytes(Key::C, CMD, false), None);
    assert_eq!(bytes(Key::ArrowUp, CMD, false), None);
}

#[test]
fn sgr_mouse_encoding() {
    for (cb, col, row, pressed, expected) in [
        (0, 0, 0, true, "\x1b[<0;1;1M"),      // left press, top-left cell
        (3, 0, 0, false, "\x1b[<3;1;1m"),     // release
        (1, 4, 2, true, "\x1b[<1;5;3M"),      // middle press
        (2, 79, 23, true, "\x1b[<2;80;24M"),  // right press, bottom-right
        (64, 5, 2, true, "\x1b[<64;6;3M"),    // wheel up
        (65, 5, 2, true, "\x1b[<65;6;3M"),    // wheel down
        (35, 10, 7, true, "\x1b[<35;11;8M"),  // motion, no button
        (32, 10, 7, true, "\x1b[<32;11;8M"),  // drag with left button
    ] {
        assert_eq!(sgr_mouse(cb, col, row, pressed), expected.as_bytes());
    }
}

#[test]
fn mouse_button_codes() {
    assert_eq!(mouse_button_cb(PointerButton::Primary), Some(0));
    assert_eq!(mouse_button_cb(PointerButton::Middle), Some(1));
    assert_eq!(mouse_button_cb(PointerButton::Secondary), Some(2));
    assert_eq!(mouse_button_cb(PointerButton::Extra1), None);
}

#[test]
fn encode_mouse_picks_encoding_by_mode() {
    assert_eq!(mouse_encoding(true), MouseEncoding::Sgr);
    assert_eq!(mouse_encoding(false), MouseEncoding::X10);
    for (encoding, cb, col, row, pressed, expected) in [
        (MouseEncoding::Sgr, 0, 0, 0, true, &b"\x1b[<0;1;1M"[..]),
        (MouseEncoding::Sgr, 3, 0, 0, false, b"\x1b[<3;1;1m"),
        // X10: bytes are 32 + value, releases always cb=3 with 'M'.
        (MouseEncoding::X10, 0, 0, 0, true, b"\x1b[M !!"),
        (MouseEncoding::X10, 0, 0, 0, false, b"\x1b[M#!!"),
        (MouseEncoding::X10, 64, 9, 4, true, b"\x1b[M`*%"),
    ] {
        assert_eq!(encode_mouse(encoding, cb, col, row, pressed), expected);
    }
    // Coordinates beyond 223 cells are clamped in X10.
    assert_eq!(encode_mouse(MouseEncoding::X10, 0, 300, 300, true), b"\x1b[M \xff\xff");
    // Any code fits an SGR report and an X10 release.
    assert_eq!(encode_mouse(MouseEncoding::Sgr, 255, 0, 0, true), b"\x1b[<255;1;1M");
    assert_eq!(encode_mouse(MouseEncoding::X10, 255, 0, 0, false), b"\x1b[M#!!");
}

#[test]
fn first_held_button_counts() {
    assert_eq!(held_of(true, true, true), Some(PointerButton::Primary));
    assert_eq!(held_of(false, true, true), Some(PointerButton::Middle));
    assert_eq!(held_of(false, false, true), Some(PointerButton::Secondary));
    assert_eq!(held_of(false, false, false), None);
}

#[test]
fn paste_is_bracketed_only_when_the_mode_is_on() {
    for (bracketed, expected) in [
        (true, "\x1b[200~hello\nworld\x1b[201~"),
        (false, "hello\nworld"),
    ] {
        assert_eq!(paste_bytes("hello\nworld", bracketed), expected.as_bytes());
    }
}

#[test]
fn digit_tab_shortcuts() {
    assert_eq!(digit_index(Key::Num1), Some(0));
    assert_eq!(digit_index(Key::Num9), Some(8));
    assert_eq!(digit_index(Key::Num0), None);
    assert_eq!(digit_index(Key::A), None);
}

#[test]
fn printable_keys_produce_text_events_not_bytes() {
    assert_eq!(bytes(Key::A, NONE, false), None);
    assert_eq!(bytes(Key::Space, NONE, false), None);
}

#[test]
fn kitty_mode_encodes_modified_keys_as_csi_u() {
    // Shift+Enter / Ctrl+Enter.
    assert_eq!(kitty_bytes(Key::Enter, SHIFT), Some(b"\x1b[13;2u".to_vec()));
    assert_eq!(kitty_bytes(Key::Enter, CTRL), Some(b"\x1b[13;5u".to_vec()));
    // Ctrl+I is distinct from Tab.
    assert_eq!(kitty_bytes(Key::I, CTRL), Some(b"\x1b[105;5u".to_vec()));
    // Modified Tab/Escape/Backspace.
    assert_eq!(kitty_bytes(Key::Tab, SHIFT), Some(b"\x1b[9;2u".to_vec()));
    assert_eq!(kitty_bytes(Key::Escape, CTRL), Some(b"\x1b[27;5u".to_vec()));
    assert_eq!(kitty_bytes(Key::Backspace, SHIFT), Some(b"\x1b[127;2u".to_vec()));
    // Modifier bits add up: ctrl+shift+a = 1 + 1 + 4 = 6.
    let ctrl_shift = Modifiers { shift: true, ..CTRL };
    assert_eq!(kitty_bytes(Key::A, ctrl_shift), Some(b"\x1b[97;6u".to_vec()));
    // Digits with ctrl.
    assert_eq!(kitty_bytes(Key::Num1, CTRL), Some(b"\x1b[49;5u".to_vec()));
}

#[test]
fn kitty_mode_keeps_legacy_for_unmodified_keys() {
    // No modifiers: same bytes as without the protocol.
    assert_eq!(kitty_bytes(Key::Enter, NONE), Some(b"\r".to_vec()));
    assert_eq!(kitty_bytes(Key::Tab, NONE), Some(b"\t".to_vec()));
    assert_eq!(kitty_bytes(Key::Escape, NONE), Some(b"\x1b".to_vec()));
    assert_eq!(kitty_bytes(Key::Backspace, NONE), Some(b"\x7f".to_vec()));
    // Shift-only letters still produce text events, not CSI u.
    assert_eq!(kitty_bytes(Key::A, SHIFT), None);
    // Arrows keep their legacy encoding in this subset.
    assert_eq!(kitty_bytes(Key::ArrowUp, NONE), Some(b"\x1b[A".to_vec()));
}

const MODES: TermModes = TermModes {
    mouse_report: true,
    sgr_mouse: true,
    held_moves: false,
    every_move: false,
    app_cursor: false,
    kitty: false,
    bracketed_paste: false,
};

fn sent(event: InputEvent, modes: TermModes, shift: bool) -> Option<Vec<u8>> {
    match handle_event(&event, modes, shift) {
        InputAction::Send(bytes) => Some(bytes),
        InputAction::Nothing => None,
        _ => panic!("neither sent nor nothing"),
    }
}

fn typed(event: InputEvent, modes: TermModes) -> Option<Vec<u8>> {
    match handle_event(&event, modes, false) {
        InputAction::Type(bytes) => Some(bytes),
        _ => None,
    }
}

#[test]
fn buttons_are_reported_inside_and_without_shift() {
    let press = |pressed, inside, button| InputEvent::Button { button, pressed, inside, col: 4, row: 2 };
    let primary = PointerButton::Primary;
    assert_eq!(sent(press(true, true, primary), MODES, false), Some(b"\x1b[<0;5;3M".to_vec()));
    assert_eq!(sent(press(false, true, primary), MODES, false), Some(b"\x1b[<3;5;3m".to_vec()));
    assert_eq!(sent(press(true, true, primary), MODES, true), None);
    assert_eq!(sent(press(true, false, primary), MODES, false), None);
    assert_eq!(sent(press(true, true, PointerButton::Extra2), MODES, false), None);
    let off = TermModes { mouse_report: false, ..MODES };
    assert_eq!(sent(press(true, true, primary), off, false), None);
}

#[test]
fn moves_follow_the_tracking_level() {
    let held = TermModes { held_moves: true, ..MODES };
    let every = TermModes { every_move: true, ..MODES };
    let moved = |held| InputEvent::Moved { held, inside: true, col: 0, row: 0 };
    assert_eq!(sent(moved(None), MODES, false), None);
    assert_eq!(sent(moved(Some(PointerButton::Middle)), MODES, false), None);
    assert_eq!(sent(moved(Some(PointerButton::Middle)), held, true), Some(b"\x1b[<33;1;1M".to_vec()));
    assert_eq!(sent(moved(None), held, false), None);
    assert_eq!(sent(moved(None), every, false), Some(b"\x1b[<35;1;1M".to_vec()));
    assert_eq!(mouse_motion_cb(Some(PointerButton::Extra1), true, true), None);
}

#[test]
fn wheel_turns_are_codes_64_and_65() {
    let wheel = |up| InputEvent::Wheel { up, inside: true, col: 5, row: 2 };
    assert_eq!(sent(wheel(true), MODES, false), Some(b"\x1b[<64;6;3M".to_vec()));
    assert_eq!(sent(wheel(false), MODES, false), Some(b"\x1b[<65;6;3M".to_vec()));
    let legacy = TermModes { sgr_mouse: false, ..MODES };
    assert_eq!(sent(wheel(true), legacy, false), Some(b"\x1b[M`&#".to_vec()));
}

#[test]
fn text_paste_and_keys_are_typed() {
    assert_eq!(typed(InputEvent::Text("é".into()), MODES), Some("é".as_bytes().to_vec()));
    let bracketed = TermModes { bracketed_paste: true, ..MODES };
    assert_eq!(
        typed(InputEvent::Paste("a".into()), bracketed),
        Some(b"\x1b[200~a\x1b[201~".to_vec())
    );
    let up = || InputEvent::Key { key: Key::ArrowUp, mods: NONE };
    assert_eq!(typed(up(), MODES), Some(b"\x1b[A".to_vec()));
    assert_eq!(typed(up(), TermModes { app_cursor: true, ..MODES }), Some(b"\x1bOA".to_vec()));
    let enter = InputEvent::Key { key: Key::Enter, mods: SHIFT };
    assert_eq!(typed(enter, TermModes { kitty: true, ..MODES }), Some(b"\x1b[13;2u".to_vec()));
    assert!(matches!(handle_event(&InputEvent::Copy, MODES, false), InputAction::Copy));
}

#[test]
fn shortcuts_and_scroll_keys() {
    let key = |key, mods| InputEvent::Key { key, mods };
    assert!(matches!(handle_event(&key(Key::T, CMD), MODES, false), InputAction::Shortcut(Key::T)));
    assert!(matches!(handle_event(&key(Key::X, CMD), MODES, false), InputAction::Nothing));
    assert!(matches!(handle_event(&key(Key::PageUp, SHIFT), MODES, true), InputAction::ScrollPageUp));
    assert!(matches!(handle_event(&key(Key::PageDown, SHIFT), MODES, true), InputAction::ScrollPageDown));
    assert!(is_shortcut(Key::Num3, CMD));
    assert!(!is_shortcut(Key::Num0, CMD));
    assert!(!is_shortcut(Key::W, CTRL));
    assert_eq!(shortcut_action(Key::Num3), ShortcutAction::Switch(2));
    assert_eq!(shortcut_action(Key::T), ShortcutAction::NewTab);
    assert_eq!(shortcut_action(Key::W), ShortcutAction::CloseTab);
    assert_eq!(shortcut_action(Key::Num0), ShortcutAction::Nothing);
    assert!(is_typing(&key(Key::A, NONE)));
    assert!(!is_typing(&key(Key::W, CMD)));
    assert!(is_typing(&InputEvent::Text("a".into())));
    assert!(!is_typing(&InputEvent::Copy));
}

#[test]
fn keys_without_a_control_code() {
    assert_eq!(ctrl_byte(Key::Num1), None);
    assert_eq!(ctrl_byte(Key::Other), None);
    assert_eq!(bytes(Key::Other, NONE, false), None);
}

#[test]
fn programs_take_the_mouse() {
    let free = TermModes { mouse_report: false, ..MODES };
    assert!(wheel_scrolls(free));
    assert!(!wheel_scrolls(MODES));
    assert!(mouse_selects(free, false));
    assert!(!mouse_selects(MODES, false));
    assert!(mouse_selects(MODES, true));
}
