//! What keys and the pointer send.

use vstd::prelude::*;
use vstd::utf8::encode_utf8;

use crate::input::{
    counting_button, digit_place, event_action, key_action, key_bytes, letter_place,
    shortcut_effect, types, InputActionView, InputEvent, Key, Modifiers, PointerButton,
    ShortcutAction, TermModes,
};
use crate::number::digits;

verus! {

/// The letter keys in the order of the alphabet.
pub open spec fn letter_keys() -> Seq<Key> {
    seq![
        Key::A, Key::B, Key::C, Key::D, Key::E, Key::F, Key::G, Key::H, Key::I, Key::J, Key::K,
        Key::L, Key::M, Key::N, Key::O, Key::P, Key::Q, Key::R, Key::S, Key::T, Key::U, Key::V,
        Key::W, Key::X, Key::Y, Key::Z,
    ]
}

/// The digit keys, from 0.
pub open spec fn digit_keys() -> Seq<Key> {
    seq![
        Key::Num0, Key::Num1, Key::Num2, Key::Num3, Key::Num4, Key::Num5, Key::Num6, Key::Num7,
        Key::Num8, Key::Num9,
    ]
}

proof fn lemma_letter(i: int)
    requires
        0 <= i < 26,
    ensures
        letter_place(letter_keys()[i]) == Some(i),
        digit_place(letter_keys()[i]) is None,
{
    let keys = letter_keys();
    if i == 0 {
        assert(keys[0] == keys[i]);
    } else if i == 1 {
        assert(keys[1] == keys[i]);
    } else if i == 2 {
        assert(keys[2] == keys[i]);
    } else if i == 3 {
        assert(keys[3] == keys[i]);
    } else if i == 4 {
        assert(keys[4] == keys[i]);
    } else if i == 5 {
        assert(keys[5] == keys[i]);
    } else if i == 6 {
        assert(keys[6] == keys[i]);
    } else if i == 7 {
        assert(keys[7] == keys[i]);
    } else if i == 8 {
        assert(keys[8] == keys[i]);
    } else if i == 9 {
        assert(keys[9] == keys[i]);
    } else if i == 10 {
        assert(keys[10] == keys[i]);
    } else if i == 11 {
        assert(keys[11] == keys[i]);
    } else if i == 12 {
        assert(keys[12] == keys[i]);
    } else if i == 13 {
        assert(keys[13] == keys[i]);
    } else if i == 14 {
        assert(keys[14] == keys[i]);
    } else if i == 15 {
        assert(keys[15] == keys[i]);
    } else if i == 16 {
        assert(keys[16] == keys[i]);
    } else if i == 17 {
        assert(keys[17] == keys[i]);
    } else if i == 18 {
        assert(keys[18] == keys[i]);
    } else if i == 19 {
        assert(keys[19] == keys[i]);
    } else if i == 20 {
        assert(keys[20] == keys[i]);
    } else if i == 21 {
        assert(keys[21] == keys[i]);
    } else if i == 22 {
        assert(keys[22] == keys[i]);
    } else if i == 23 {
        assert(keys[23] == keys[i]);
    } else if i == 24 {
        assert(keys[24] == keys[i]);
    } else if i == 25 {
        assert(keys[25] == keys[i]);
    }
}

proof fn lemma_digit(i: int)
    requires
        0 <= i < 10,
    ensures
        digit_place(digit_keys()[i]) == Some(i),
        letter_place(digit_keys()[i]) is None,
{
    let keys = digit_keys();
    if i == 0 {
        assert(keys[0] == keys[i]);
    } else if i == 1 {
        assert(keys[1] == keys[i]);
    } else if i == 2 {
        assert(keys[2] == keys[i]);
    } else if i == 3 {
        assert(keys[3] == keys[i]);
    } else if i == 4 {
        assert(keys[4] == keys[i]);
    } else if i == 5 {
        assert(keys[5] == keys[i]);
    } else if i == 6 {
        assert(keys[6] == keys[i]);
    } else if i == 7 {
        assert(keys[7] == keys[i]);
    } else if i == 8 {
        assert(keys[8] == keys[i]);
    } else if i == 9 {
        assert(keys[9] == keys[i]);
    }
}

/// A key that some control character belongs to.
pub open spec fn has_control_character(key: Key) -> bool {
    letter_keys().contains(key) || key is Space || key is OpenBracket || key is Backslash
        || key is CloseBracket
}

proof fn lemma_letter_place(key: Key)
    ensures
        letter_place(key) is Some <==> letter_keys().contains(key),
        letter_place(key) matches Some(i) ==> 0 <= i < 26 && letter_keys()[i] == key,
{
    let keys = letter_keys();
    if let Some(i) = letter_place(key) {
        if i == 0 {
            assert(keys[0] == keys[i]);
        } else if i == 1 {
            assert(keys[1] == keys[i]);
        } else if i == 2 {
            assert(keys[2] == keys[i]);
        } else if i == 3 {
            assert(keys[3] == keys[i]);
        } else if i == 4 {
            assert(keys[4] == keys[i]);
        } else if i == 5 {
            assert(keys[5] == keys[i]);
        } else if i == 6 {
            assert(keys[6] == keys[i]);
        } else if i == 7 {
            assert(keys[7] == keys[i]);
        } else if i == 8 {
            assert(keys[8] == keys[i]);
        } else if i == 9 {
            assert(keys[9] == keys[i]);
        } else if i == 10 {
            assert(keys[10] == keys[i]);
        } else if i == 11 {
            assert(keys[11] == keys[i]);
        } else if i == 12 {
            assert(keys[12] == keys[i]);
        } else if i == 13 {
            assert(keys[13] == keys[i]);
        } else if i == 14 {
            assert(keys[14] == keys[i]);
        } else if i == 15 {
            assert(keys[15] == keys[i]);
        } else if i == 16 {
            assert(keys[16] == keys[i]);
        } else if i == 17 {
            assert(keys[17] == keys[i]);
        } else if i == 18 {
            assert(keys[18] == keys[i]);
        } else if i == 19 {
            assert(keys[19] == keys[i]);
        } else if i == 20 {
            assert(keys[20] == keys[i]);
        } else if i == 21 {
            assert(keys[21] == keys[i]);
        } else if i == 22 {
            assert(keys[22] == keys[i]);
        } else if i == 23 {
            assert(keys[23] == keys[i]);
        } else if i == 24 {
            assert(keys[24] == keys[i]);
        } else if i == 25 {
            assert(keys[25] == keys[i]);
        }
    }
    if keys.contains(key) {
        let i = choose|i: int| 0 <= i < keys.len() && keys[i] == key;
        lemma_letter(i);
    }
}

proof fn lemma_digit_place(key: Key)
    ensures
        digit_place(key) is Some <==> digit_keys().contains(key),
        digit_place(key) matches Some(i) ==> 0 <= i < 10 && digit_keys()[i] == key,
{
    let keys = digit_keys();
    if let Some(i) = digit_place(key) {
        if i == 0 {
            assert(keys[0] == keys[i]);
        } else if i == 1 {
            assert(keys[1] == keys[i]);
        } else if i == 2 {
            assert(keys[2] == keys[i]);
        } else if i == 3 {
            assert(keys[3] == keys[i]);
        } else if i == 4 {
            assert(keys[4] == keys[i]);
        } else if i == 5 {
            assert(keys[5] == keys[i]);
        } else if i == 6 {
            assert(keys[6] == keys[i]);
        } else if i == 7 {
            assert(keys[7] == keys[i]);
        } else if i == 8 {
            assert(keys[8] == keys[i]);
        } else if i == 9 {
            assert(keys[9] == keys[i]);
        }
    }
    if keys.contains(key) {
        let i = choose|i: int| 0 <= i < keys.len() && keys[i] == key;
        lemma_digit(i);
    }
}

/// Ctrl with a letter sends the letter's place in the alphabet, counted from 1;
/// with space it sends 0, and with `[`, `\` and `]` 27, 28 and 29. No other key
/// changes with Ctrl.
pub proof fn law_control_characters(i: int, key: Key, mods: Modifiers, app: bool)
    requires
        0 <= i < 26,
        mods.ctrl,
        !mods.command,
    ensures
        key_bytes(letter_keys()[i], mods, app, false) == Some(seq![(i + 1) as u8]),
        key_bytes(Key::Space, mods, app, false) == Some(seq![0u8]),
        key_bytes(Key::OpenBracket, mods, app, false) == Some(seq![27u8]),
        key_bytes(Key::Backslash, mods, app, false) == Some(seq![28u8]),
        key_bytes(Key::CloseBracket, mods, app, false) == Some(seq![29u8]),
        !has_control_character(key) ==> key_bytes(key, mods, app, false) == key_bytes(
            key,
            Modifiers { ctrl: false, ..mods },
            app,
            false,
        ),
{
    lemma_letter(i);
    lemma_letter_place(key);
}

/// A key number and the modifiers in the kitty keyboard protocol.
pub open spec fn kitty_sequence(code: int, mods: Modifiers) -> Seq<u8> {
    let held = (if mods.shift {
        1int
    } else {
        0
    }) + (if mods.alt {
        2int
    } else {
        0
    }) + (if mods.ctrl {
        4int
    } else {
        0
    });
    encode_utf8(
        seq!['\u{1b}', '['] + digits(code as nat) + seq![';'] + digits((held + 1) as nat) + seq!['u'],
    )
}

/// In the kitty protocol Enter, Tab, Escape and Backspace are numbered 13, 9,
/// 27 and 127 with any modifier; letters from 97 and digits from 48 with Ctrl or
/// Alt. No other key changes.
pub proof fn law_kitty_numbers(i: int, d: int, key: Key, mods: Modifiers, app: bool)
    requires
        0 <= i < 26,
        0 <= d < 10,
        !mods.command,
    ensures
        mods.shift || mods.alt || mods.ctrl ==> {
            &&& key_bytes(Key::Enter, mods, app, true) == Some(kitty_sequence(13, mods))
            &&& key_bytes(Key::Tab, mods, app, true) == Some(kitty_sequence(9, mods))
            &&& key_bytes(Key::Escape, mods, app, true) == Some(kitty_sequence(27, mods))
            &&& key_bytes(Key::Backspace, mods, app, true) == Some(kitty_sequence(127, mods))
        },
        mods.alt || mods.ctrl ==> {
            &&& key_bytes(letter_keys()[i], mods, app, true) == Some(kitty_sequence(97 + i, mods))
            &&& key_bytes(digit_keys()[d], mods, app, true) == Some(kitty_sequence(48 + d, mods))
        },
        !mods.alt && !mods.ctrl ==> key_bytes(letter_keys()[i], mods, app, true) == key_bytes(
            letter_keys()[i],
            mods,
            app,
            false,
        ) && key_bytes(digit_keys()[d], mods, app, true) == key_bytes(
            digit_keys()[d],
            mods,
            app,
            false,
        ),
        !(key is Enter || key is Tab || key is Escape || key is Backspace) && !letter_keys().contains(
            key,
        ) && !digit_keys().contains(key) ==> key_bytes(key, mods, app, true) == key_bytes(
            key,
            mods,
            app,
            false,
        ),
{
    reveal_strlit("\x1b[");
    reveal_strlit(";");
    reveal_strlit("u");
    assert("\x1b["@ =~= seq!['\u{1b}', '[']);
    assert(";"@ =~= seq![';']);
    assert("u"@ =~= seq!['u']);
    lemma_letter(i);
    lemma_digit(d);
    lemma_letter_place(key);
    lemma_digit_place(key);
    assert(!(letter_keys()[i] is Enter || letter_keys()[i] is Tab || letter_keys()[i] is Escape
        || letter_keys()[i] is Backspace));
    assert(!(digit_keys()[d] is Enter || digit_keys()[d] is Tab || digit_keys()[d] is Escape
        || digit_keys()[d] is Backspace));
}

/// The keys that move the cursor, and the letters that end their sequences.
pub open spec fn cursor_keys() -> Seq<(Key, char)> {
    seq![
        (Key::ArrowUp, 'A'),
        (Key::ArrowDown, 'B'),
        (Key::ArrowRight, 'C'),
        (Key::ArrowLeft, 'D'),
        (Key::Home, 'H'),
        (Key::End, 'F'),
    ]
}

/// The keys that are numbered, with their numbers.
pub open spec fn numbered_keys() -> Seq<(Key, Seq<char>)> {
    seq![
        (Key::Insert, seq!['2']),
        (Key::Delete, seq!['3']),
        (Key::PageUp, seq!['5']),
        (Key::PageDown, seq!['6']),
        (Key::F5, seq!['1', '5']),
        (Key::F6, seq!['1', '7']),
        (Key::F7, seq!['1', '8']),
        (Key::F8, seq!['1', '9']),
        (Key::F9, seq!['2', '0']),
        (Key::F10, seq!['2', '1']),
        (Key::F11, seq!['2', '3']),
        (Key::F12, seq!['2', '4']),
    ]
}

/// The first function keys, and the letters that end their sequences.
pub open spec fn function_keys() -> Seq<(Key, char)> {
    seq![(Key::F1, 'P'), (Key::F2, 'Q'), (Key::F3, 'R'), (Key::F4, 'S')]
}

/// Arrows, Home and End send `ESC [` and their letter, or `ESC O` and it in
/// application cursor mode.
pub proof fn law_cursor_keys(i: int, mods: Modifiers, app: bool, kitty: bool)
    requires
        0 <= i < 6,
        !mods.command,
    ensures
        key_bytes(cursor_keys()[i].0, mods, app, kitty) == Some(
            encode_utf8(
                seq![
                    '\u{1b}',
                    if app {
                        'O'
                    } else {
                        '['
                    },
                    cursor_keys()[i].1,
                ],
            ),
        ),
{
    let keys = cursor_keys();
    reveal_strlit("\x1bOA");
    reveal_strlit("\x1b[A");
    reveal_strlit("\x1bOB");
    reveal_strlit("\x1b[B");
    reveal_strlit("\x1bOC");
    reveal_strlit("\x1b[C");
    reveal_strlit("\x1bOD");
    reveal_strlit("\x1b[D");
    reveal_strlit("\x1bOH");
    reveal_strlit("\x1b[H");
    reveal_strlit("\x1bOF");
    reveal_strlit("\x1b[F");
    assert("\x1bOA"@ =~= seq!['\u{1b}', 'O', 'A'] && "\x1b[A"@ =~= seq!['\u{1b}', '[', 'A']);
    assert("\x1bOB"@ =~= seq!['\u{1b}', 'O', 'B'] && "\x1b[B"@ =~= seq!['\u{1b}', '[', 'B']);
    assert("\x1bOC"@ =~= seq!['\u{1b}', 'O', 'C'] && "\x1b[C"@ =~= seq!['\u{1b}', '[', 'C']);
    assert("\x1bOD"@ =~= seq!['\u{1b}', 'O', 'D'] && "\x1b[D"@ =~= seq!['\u{1b}', '[', 'D']);
    assert("\x1bOH"@ =~= seq!['\u{1b}', 'O', 'H'] && "\x1b[H"@ =~= seq!['\u{1b}', '[', 'H']);
    assert("\x1bOF"@ =~= seq!['\u{1b}', 'O', 'F'] && "\x1b[F"@ =~= seq!['\u{1b}', '[', 'F']);
    assert(keys[i] == keys[0] || keys[i] == keys[1] || keys[i] == keys[2] || keys[i] == keys[3]
        || keys[i] == keys[4] || keys[i] == keys[5]);
}

/// Insert, Delete, the page keys and F5 to F12 send `ESC [`, their number and
/// `~`; F1 to F4 send `ESC O` and their letter.
pub proof fn law_numbered_keys(i: int, f: int, mods: Modifiers, app: bool, kitty: bool)
    requires
        0 <= i < 12,
        0 <= f < 4,
        !mods.command,
    ensures
        key_bytes(numbered_keys()[i].0, mods, app, kitty) == Some(
            encode_utf8(seq!['\u{1b}', '['] + numbered_keys()[i].1 + seq!['~']),
        ),
        key_bytes(function_keys()[f].0, mods, app, kitty) == Some(
            encode_utf8(seq!['\u{1b}', 'O', function_keys()[f].1]),
        ),
{
    let keys = numbered_keys();
    let first = function_keys();
    reveal_strlit("\x1bOP");
    reveal_strlit("\x1bOQ");
    reveal_strlit("\x1bOR");
    reveal_strlit("\x1bOS");
    assert("\x1bOP"@ =~= seq!['\u{1b}', 'O', 'P']);
    assert("\x1bOQ"@ =~= seq!['\u{1b}', 'O', 'Q']);
    assert("\x1bOR"@ =~= seq!['\u{1b}', 'O', 'R']);
    assert("\x1bOS"@ =~= seq!['\u{1b}', 'O', 'S']);
    assert(first[f] == first[0] || first[f] == first[1] || first[f] == first[2] || first[f]
        == first[3]);
    reveal_strlit("\x1b[2~");
    reveal_strlit("\x1b[3~");
    reveal_strlit("\x1b[5~");
    reveal_strlit("\x1b[6~");
    reveal_strlit("\x1b[15~");
    reveal_strlit("\x1b[17~");
    reveal_strlit("\x1b[18~");
    reveal_strlit("\x1b[19~");
    reveal_strlit("\x1b[20~");
    reveal_strlit("\x1b[21~");
    reveal_strlit("\x1b[23~");
    reveal_strlit("\x1b[24~");
    assert("\x1b[2~"@ =~= seq!['\u{1b}', '['] + keys[0].1 + seq!['~']);
    assert("\x1b[3~"@ =~= seq!['\u{1b}', '['] + keys[1].1 + seq!['~']);
    assert("\x1b[5~"@ =~= seq!['\u{1b}', '['] + keys[2].1 + seq!['~']);
    assert("\x1b[6~"@ =~= seq!['\u{1b}', '['] + keys[3].1 + seq!['~']);
    assert("\x1b[15~"@ =~= seq!['\u{1b}', '['] + keys[4].1 + seq!['~']);
    assert("\x1b[17~"@ =~= seq!['\u{1b}', '['] + keys[5].1 + seq!['~']);
    assert("\x1b[18~"@ =~= seq!['\u{1b}', '['] + keys[6].1 + seq!['~']);
    assert("\x1b[19~"@ =~= seq!['\u{1b}', '['] + keys[7].1 + seq!['~']);
    assert("\x1b[20~"@ =~= seq!['\u{1b}', '['] + keys[8].1 + seq!['~']);
    assert("\x1b[21~"@ =~= seq!['\u{1b}', '['] + keys[9].1 + seq!['~']);
    assert("\x1b[23~"@ =~= seq!['\u{1b}', '['] + keys[10].1 + seq!['~']);
    assert("\x1b[24~"@ =~= seq!['\u{1b}', '['] + keys[11].1 + seq!['~']);
    assert(keys[i] == keys[0] || keys[i] == keys[1] || keys[i] == keys[2] || keys[i] == keys[3]
        || keys[i] == keys[4] || keys[i] == keys[5] || keys[i] == keys[6] || keys[i] == keys[7]
        || keys[i] == keys[8] || keys[i] == keys[9] || keys[i] == keys[10] || keys[i] == keys[11]);
}

/// Enter sends a carriage return, Tab a tab or `ESC [ Z` with Shift, Backspace
/// the character 127, Escape itself. The keys that produce text send nothing
/// without Ctrl.
pub proof fn law_text_keys(i: int, d: int, mods: Modifiers, app: bool)
    requires
        0 <= i < 26,
        0 <= d < 10,
        !mods.command,
    ensures
        key_bytes(Key::Enter, mods, app, false) == Some(encode_utf8(seq!['\r'])),
        key_bytes(Key::Tab, mods, app, false) == Some(
            encode_utf8(
                if mods.shift {
                    seq!['\u{1b}', '[', 'Z']
                } else {
                    seq!['\t']
                },
            ),
        ),
        key_bytes(Key::Backspace, mods, app, false) == Some(encode_utf8(seq!['\u{7f}'])),
        key_bytes(Key::Escape, mods, app, false) == Some(encode_utf8(seq!['\u{1b}'])),
        !mods.ctrl ==> {
            &&& key_bytes(letter_keys()[i], mods, app, false) is None
            &&& key_bytes(Key::Space, mods, app, false) is None
            &&& key_bytes(Key::OpenBracket, mods, app, false) is None
            &&& key_bytes(Key::Backslash, mods, app, false) is None
            &&& key_bytes(Key::CloseBracket, mods, app, false) is None
        },
        key_bytes(digit_keys()[d], mods, app, false) is None,
        key_bytes(Key::Other, mods, app, false) is None,
{
    reveal_strlit("\r");
    reveal_strlit("\t");
    reveal_strlit("\x7f");
    reveal_strlit("\x1b");
    reveal_strlit("\x1b[Z");
    assert("\r"@ =~= seq!['\r']);
    assert("\t"@ =~= seq!['\t']);
    assert("\x7f"@ =~= seq!['\u{7f}']);
    assert("\x1b"@ =~= seq!['\u{1b}']);
    assert("\x1b[Z"@ =~= seq!['\u{1b}', '[', 'Z']);
    lemma_letter(i);
    lemma_digit(d);
    lemma_letter_place(letter_keys()[i]);
    lemma_digit_place(digit_keys()[d]);
}

/// With the command key T, W and the digits from 1 on are shortcuts. Shift with
/// PageUp or PageDown scrolls. Every other key types what it sends.
pub proof fn law_key_actions(d: int, key: Key, mods: Modifiers, modes: TermModes)
    requires
        0 <= d < 10,
    ensures
        mods.command ==> {
            &&& key_action(Key::T, mods, modes) == InputActionView::Shortcut(Key::T)
            &&& key_action(Key::W, mods, modes) == InputActionView::Shortcut(Key::W)
            &&& d > 0 ==> key_action(digit_keys()[d], mods, modes) == InputActionView::Shortcut(
                digit_keys()[d],
            )
            &&& key_action(Key::Num0, mods, modes) == InputActionView::Nothing
            &&& !(key is T || key is W || digit_keys().contains(key) || (mods.shift && (key is PageUp
                || key is PageDown))) ==> key_action(key, mods, modes) == InputActionView::Nothing
        },
        mods.shift ==> {
            &&& key_action(Key::PageUp, mods, modes) == InputActionView::ScrollPageUp
            &&& key_action(Key::PageDown, mods, modes) == InputActionView::ScrollPageDown
        },
        !mods.command && !(mods.shift && (key is PageUp || key is PageDown)) ==> key_action(
            key,
            mods,
            modes,
        ) == match key_bytes(key, mods, modes.app_cursor, modes.kitty) {
            Some(bytes) => InputActionView::Type(bytes),
            None => InputActionView::Nothing,
        },
{
    lemma_digit(d);
    lemma_digit_place(key);
    lemma_digit_place(digit_keys()[d]);
}

/// The shortcuts: T opens a tab, W closes one, and the digits from 1 on switch
/// to the tabs in order. Shortcuts are no typing; text, pastes and other keys
/// are.
pub proof fn law_shortcuts(d: int, key: Key, mods: Modifiers, text: String)
    requires
        0 < d < 10,
    ensures
        shortcut_effect(Key::T) == ShortcutAction::NewTab,
        shortcut_effect(Key::W) == ShortcutAction::CloseTab,
        shortcut_effect(digit_keys()[d]) == ShortcutAction::Switch((d - 1) as usize),
        !(key is T || key is W) && !digit_keys().contains(key) ==> shortcut_effect(key)
            == ShortcutAction::Nothing,
        shortcut_effect(Key::Num0) == ShortcutAction::Nothing,
        types(InputEvent::Text(text)),
        types(InputEvent::Paste(text)),
        !types(InputEvent::Copy),
        mods.command ==> {
            &&& !types(InputEvent::Key { key: Key::T, mods })
            &&& !types(InputEvent::Key { key: Key::W, mods })
            &&& !types(InputEvent::Key { key: digit_keys()[d], mods })
        },
        !mods.command ==> types(InputEvent::Key { key, mods }),
        !(key is T || key is W) && !digit_keys().contains(key) ==> types(
            InputEvent::Key { key, mods },
        ),
{
    lemma_digit(d);
    lemma_digit_place(key);
    lemma_digit_place(digit_keys()[d]);
}

/// While several buttons are held the primary one counts before the middle one,
/// and that one before the secondary one.
pub proof fn law_counting_button(middle: bool, secondary: bool)
    ensures
        counting_button(true, middle, secondary) == Some(PointerButton::Primary),
        counting_button(false, true, secondary) == Some(PointerButton::Middle),
        counting_button(false, false, true) == Some(PointerButton::Secondary),
        counting_button(false, false, false) is None,
{
}

/// The pointer's buttons that are reported, in the order of their codes.
pub open spec fn reported_buttons() -> Seq<PointerButton> {
    seq![PointerButton::Primary, PointerButton::Middle, PointerButton::Secondary]
}

/// A coordinate of the old mouse reports: counted from 1, no more than 223, and
/// 32 above that.
pub open spec fn old_coordinate(v: int) -> int {
    32 + if v + 1 < 223 {
        v + 1
    } else {
        223
    }
}

/// A mouse report: `ESC [ <`, the code and the coordinates from 1 and the last
/// character, or in the old form `ESC [ M` and three bytes.
pub open spec fn is_report(
    bytes: Seq<u8>,
    sgr: bool,
    code: int,
    col: int,
    row: int,
    last: char,
) -> bool {
    if sgr {
        bytes == encode_utf8(
            seq!['\u{1b}', '[', '<'] + digits(code as nat) + seq![';'] + digits((col + 1) as nat)
                + seq![';'] + digits((row + 1) as nat) + seq![last],
        )
    } else {
        &&& bytes.len() == 6
        &&& bytes[0] == 27 && bytes[1] == 91 && bytes[2] == 77
        &&& bytes[3] == 32 + code
        &&& bytes[4] == old_coordinate(col)
        &&& bytes[5] == old_coordinate(row)
    }
}

proof fn lemma_report_texts()
    ensures
        "\x1b[<"@ == seq!['\u{1b}', '[', '<'],
        ";"@ == seq![';'],
        "M"@ == seq!['M'],
        "m"@ == seq!['m'],
{
    reveal_strlit("\x1b[<");
    reveal_strlit(";");
    reveal_strlit("M");
    reveal_strlit("m");
    assert("\x1b[<"@ =~= seq!['\u{1b}', '[', '<']);
    assert(";"@ =~= seq![';']);
    assert("M"@ =~= seq!['M']);
    assert("m"@ =~= seq!['m']);
}

/// The first three buttons are reported as 0, 1 and 2, and a release of any of
/// them as 3; nothing is reported of another button, with Shift held, outside the
/// view, or where the program did not ask.
pub proof fn law_buttons_are_reported(
    b: int,
    button: PointerButton,
    pressed: bool,
    inside: bool,
    col: usize,
    row: usize,
    modes: TermModes,
    shift: bool,
)
    requires
        0 <= b < 3,
    ensures
        ({
            let event = InputEvent::Button {
                button: reported_buttons()[b],
                pressed,
                inside,
                col,
                row,
            };
            let action = event_action(event, modes, shift);
            if modes.mouse_report && inside && !shift {
                action matches InputActionView::Send(bytes) && is_report(
                    bytes,
                    modes.sgr_mouse,
                    if pressed {
                        b
                    } else {
                        3
                    },
                    col as int,
                    row as int,
                    if pressed {
                        'M'
                    } else {
                        'm'
                    },
                )
            } else {
                action == InputActionView::Nothing
            }
        }),
        !reported_buttons().contains(button) ==> event_action(
            InputEvent::Button { button, pressed, inside, col, row },
            modes,
            shift,
        ) == InputActionView::Nothing,
{
    lemma_report_texts();
    let buttons = reported_buttons();
    assert(buttons[0] is Primary && buttons[1] is Middle && buttons[2] is Secondary);
    assert(buttons[b] == buttons[0] || buttons[b] == buttons[1] || buttons[b] == buttons[2]);
    if !buttons.contains(button) {
        assert(button != buttons[0] && button != buttons[1] && button != buttons[2]);
    }
}

/// A move with a button held is reported as 32 more than the button where the
/// program asked for those moves or for all; a move without one as 35 where it
/// asked for all. The wheel is reported as 64 up and 65 down.
pub proof fn law_moves_are_reported(
    b: int,
    up: bool,
    inside: bool,
    col: usize,
    row: usize,
    modes: TermModes,
    shift: bool,
)
    requires
        0 <= b < 3,
    ensures
        ({
            let held = Some(reported_buttons()[b]);
            let dragged = event_action(InputEvent::Moved { held, inside, col, row }, modes, shift);
            let moved = event_action(
                InputEvent::Moved { held: None, inside, col, row },
                modes,
                shift,
            );
            let wheel = event_action(InputEvent::Wheel { up, inside, col, row }, modes, shift);
            let c = col as int;
            let r = row as int;
            let sgr = modes.sgr_mouse;
            &&& if modes.mouse_report && inside && (modes.held_moves || modes.every_move) {
                dragged matches InputActionView::Send(bytes) && is_report(bytes, sgr, 32 + b, c, r, 'M')
            } else {
                dragged == InputActionView::Nothing
            }
            &&& if modes.mouse_report && inside && modes.every_move {
                moved matches InputActionView::Send(bytes) && is_report(bytes, sgr, 35, c, r, 'M')
            } else {
                moved == InputActionView::Nothing
            }
            &&& if modes.mouse_report && inside {
                wheel matches InputActionView::Send(bytes) && is_report(
                    bytes,
                    sgr,
                    if up {
                        64
                    } else {
                        65
                    },
                    c,
                    r,
                    'M',
                )
            } else {
                wheel == InputActionView::Nothing
            }
        }),
{
    lemma_report_texts();
    let buttons = reported_buttons();
    assert(buttons[0] is Primary && buttons[1] is Middle && buttons[2] is Secondary);
    assert(buttons[b] == buttons[0] || buttons[b] == buttons[1] || buttons[b] == buttons[2]);
}

/// Typed text is sent as it is; a paste too, between `ESC [ 200 ~` and
/// `ESC [ 201 ~` where the program asked for that.
pub proof fn law_texts_are_sent(text: String, modes: TermModes, shift: bool)
    ensures
        event_action(InputEvent::Text(text), modes, shift) == InputActionView::Type(
            encode_utf8(text@),
        ),
        event_action(InputEvent::Paste(text), modes, shift) == InputActionView::Type(
            encode_utf8(
                if modes.bracketed_paste {
                    seq!['\u{1b}', '[', '2', '0', '0', '~'] + text@ + seq![
                        '\u{1b}',
                        '[',
                        '2',
                        '0',
                        '1',
                        '~',
                    ]
                } else {
                    text@
                },
            ),
        ),
        event_action(InputEvent::Copy, modes, shift) == InputActionView::Copy,
{
    reveal_strlit("\x1b[200~");
    reveal_strlit("\x1b[201~");
    assert("\x1b[200~"@ =~= seq!['\u{1b}', '[', '2', '0', '0', '~']);
    assert("\x1b[201~"@ =~= seq!['\u{1b}', '[', '2', '0', '1', '~']);
}

} // verus!
