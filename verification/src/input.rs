//! Translation of keyboard and pointer events for the terminal.

use vstd::prelude::*;
use vstd::utf8::encode_utf8;

use crate::number::{digits, unsigned_text};

verus! {

/// The keys that the terminal tells apart.
#[derive(Debug, Clone, Copy, PartialEq, Eq, Structural)]
pub enum Key {
    A,
    B,
    C,
    D,
    E,
    F,
    G,
    H,
    I,
    J,
    K,
    L,
    M,
    N,
    O,
    P,
    Q,
    R,
    S,
    T,
    U,
    V,
    W,
    X,
    Y,
    Z,
    Num0,
    Num1,
    Num2,
    Num3,
    Num4,
    Num5,
    Num6,
    Num7,
    Num8,
    Num9,
    F1,
    F2,
    F3,
    F4,
    F5,
    F6,
    F7,
    F8,
    F9,
    F10,
    F11,
    F12,
    Space,
    OpenBracket,
    Backslash,
    CloseBracket,
    Enter,
    Backspace,
    Tab,
    Escape,
    Delete,
    Insert,
    PageUp,
    PageDown,
    Home,
    End,
    ArrowUp,
    ArrowDown,
    ArrowRight,
    ArrowLeft,
    /// Any other key.
    Other,
}

/// The modifier keys that are held.
#[derive(Debug, Clone, Copy, PartialEq, Eq, Structural)]
pub struct Modifiers {
    pub alt: bool,
    pub ctrl: bool,
    pub shift: bool,
    /// The key of app-level shortcuts.
    pub command: bool,
}

/// The buttons of a pointer.
#[derive(Debug, Clone, Copy, PartialEq, Eq, Structural)]
pub enum PointerButton {
    Primary,
    Secondary,
    Middle,
    Extra1,
    Extra2,
}

/// The place of a letter key in the alphabet, from 0.
pub open spec fn letter_place(key: Key) -> Option<int> {
    match key {
        Key::A => Some(0),
        Key::B => Some(1),
        Key::C => Some(2),
        Key::D => Some(3),
        Key::E => Some(4),
        Key::F => Some(5),
        Key::G => Some(6),
        Key::H => Some(7),
        Key::I => Some(8),
        Key::J => Some(9),
        Key::K => Some(10),
        Key::L => Some(11),
        Key::M => Some(12),
        Key::N => Some(13),
        Key::O => Some(14),
        Key::P => Some(15),
        Key::Q => Some(16),
        Key::R => Some(17),
        Key::S => Some(18),
        Key::T => Some(19),
        Key::U => Some(20),
        Key::V => Some(21),
        Key::W => Some(22),
        Key::X => Some(23),
        Key::Y => Some(24),
        Key::Z => Some(25),
        _ => None,
    }
}

/// The digit of a digit key.
pub open spec fn digit_place(key: Key) -> Option<int> {
    match key {
        Key::Num0 => Some(0),
        Key::Num1 => Some(1),
        Key::Num2 => Some(2),
        Key::Num3 => Some(3),
        Key::Num4 => Some(4),
        Key::Num5 => Some(5),
        Key::Num6 => Some(6),
        Key::Num7 => Some(7),
        Key::Num8 => Some(8),
        Key::Num9 => Some(9),
        _ => None,
    }
}

/// The place of a letter key in the alphabet, from 0.
fn letter(key: Key) -> (r: Option<u8>)
    ensures
        match r {
            Some(i) => letter_place(key) == Some(i as int) && i < 26,
            None => letter_place(key) is None,
        },
{
    match key {
        Key::A => Some(0),
        Key::B => Some(1),
        Key::C => Some(2),
        Key::D => Some(3),
        Key::E => Some(4),
        Key::F => Some(5),
        Key::G => Some(6),
        Key::H => Some(7),
        Key::I => Some(8),
        Key::J => Some(9),
        Key::K => Some(10),
        Key::L => Some(11),
        Key::M => Some(12),
        Key::N => Some(13),
        Key::O => Some(14),
        Key::P => Some(15),
        Key::Q => Some(16),
        Key::R => Some(17),
        Key::S => Some(18),
        Key::T => Some(19),
        Key::U => Some(20),
        Key::V => Some(21),
        Key::W => Some(22),
        Key::X => Some(23),
        Key::Y => Some(24),
        Key::Z => Some(25),
        _ => None,
    }
}

/// The digit of a digit key.
fn digit(key: Key) -> (r: Option<u8>)
    ensures
        match r {
            Some(i) => digit_place(key) == Some(i as int) && i < 10,
            None => digit_place(key) is None,
        },
{
    match key {
        Key::Num0 => Some(0),
        Key::Num1 => Some(1),
        Key::Num2 => Some(2),
        Key::Num3 => Some(3),
        Key::Num4 => Some(4),
        Key::Num5 => Some(5),
        Key::Num6 => Some(6),
        Key::Num7 => Some(7),
        Key::Num8 => Some(8),
        Key::Num9 => Some(9),
        _ => None,
    }
}

/// Tab index for Cmd+1..=Cmd+9 (Num1 → 0, Num9 → 8).
pub fn digit_index(key: Key) -> (r: Option<usize>)
    ensures
        match digit_place(key) {
            Some(d) => if d == 0 {
                r is None
            } else {
                r == Some((d - 1) as usize)
            },
            None => r is None,
        },
{
    match digit(key) {
        Some(d) => if d == 0 {
            None
        } else {
            Some((d - 1) as usize)
        },
        None => None,
    }
}

/// The bytes of a text.
pub open spec fn bytes_of(text: Seq<char>) -> Seq<u8> {
    encode_utf8(text)
}

// ---------------------------------------------------------------------------
// Paste.

/// A paste: wrapped in markers when the program running in the terminal
/// enabled bracketed paste.
pub open spec fn pasted(text: Seq<char>, bracketed: bool) -> Seq<char> {
    if bracketed {
        "\x1b[200~"@ + text + "\x1b[201~"@
    } else {
        text
    }
}

/// Bytes for a paste: wrapped in bracketed-paste markers when the program
/// running in the terminal enabled the mode, plain text otherwise.
pub fn paste_bytes(text: &str, bracketed: bool) -> (r: Vec<u8>)
    ensures
        r@ == bytes_of(pasted(text@, bracketed)),
{
    if bracketed {
        String::from_str("\x1b[200~").concat(text).concat("\x1b[201~").as_str().as_bytes_vec()
    } else {
        text.as_bytes_vec()
    }
}

// ---------------------------------------------------------------------------
// Mouse reports.

/// SGR mouse report: `CSI < Cb ; Cx ; Cy M` for a press, `m` for a release.
pub open spec fn sgr_text(cb: int, col: int, row: int, pressed: bool) -> Seq<char> {
    "\x1b[<"@ + digits(cb as nat) + ";"@ + digits((col + 1) as nat) + ";"@ + digits(
        (row + 1) as nat,
    ) + if pressed {
        "M"@
    } else {
        "m"@
    }
}

/// SGR mouse report: `CSI < Cb ; Cx ; Cy M` for a press, `m` for a release.
/// `cb` is the button/event code (left=0, middle=1, right=2, release=3,
/// wheel up/down=64/65, motion adds 32); `col`/`row` are 0-based cell
/// coordinates, encoded 1-based.
pub fn sgr_mouse(cb: u8, col: usize, row: usize, pressed: bool) -> (r: Vec<u8>)
    requires
        col < usize::MAX,
        row < usize::MAX,
    ensures
        r@ == bytes_of(sgr_text(cb as int, col as int, row as int, pressed)),
{
    let text = String::from_str("\x1b[<").concat(unsigned_text(cb as u64).as_str()).concat(
        ";",
    ).concat(unsigned_text((col + 1) as u64).as_str()).concat(";").concat(
        unsigned_text((row + 1) as u64).as_str(),
    ).concat(
        if pressed {
            "M"
        } else {
            "m"
        },
    );
    text.as_str().as_bytes_vec()
}

/// Mouse report encoding negotiated by the program: SGR (1006) when
/// enabled, else the legacy X10 form. UTF8_MOUSE (1005) accepts the same
/// bytes as X10 for our coordinate range.
#[derive(Debug, Clone, Copy, PartialEq, Eq, Structural)]
pub enum MouseEncoding {
    Sgr,
    X10,
}

/// The encoding that the program asked for.
pub fn mouse_encoding(sgr_mouse_mode: bool) -> (r: MouseEncoding)
    ensures
        r == if sgr_mouse_mode {
            MouseEncoding::Sgr
        } else {
            MouseEncoding::X10
        },
{
    if sgr_mouse_mode {
        MouseEncoding::Sgr
    } else {
        MouseEncoding::X10
    }
}

/// A coordinate, counted from 1, in the legacy form: 32 more, up to the
/// largest that fits.
pub open spec fn x10_byte(v: int) -> u8 {
    if v <= 223 {
        (v + 32) as u8
    } else {
        255
    }
}

/// Legacy mouse report: `CSI M Cb Cx Cy`. A release is always reported as
/// code 3.
pub open spec fn x10_report(cb: u8, col: int, row: int, pressed: bool) -> Seq<u8> {
    seq![
        0x1bu8,
        0x5bu8,
        0x4du8,
        (32 + if pressed {
            cb as int
        } else {
            3
        }) as u8,
        x10_byte(col + 1),
        x10_byte(row + 1),
    ]
}

/// One mouse report in the encoding `encoding`.
pub open spec fn mouse_report(
    encoding: MouseEncoding,
    cb: u8,
    col: int,
    row: int,
    pressed: bool,
) -> Seq<u8> {
    match encoding {
        MouseEncoding::Sgr => bytes_of(sgr_text(cb as int, col, row, pressed)),
        MouseEncoding::X10 => x10_report(cb, col, row, pressed),
    }
}

fn x10_coordinate(v: usize) -> (r: u8)
    ensures
        r == x10_byte(v as int),
{
    if v <= 223 {
        (v + 32) as u8
    } else {
        255
    }
}

/// Encode one mouse report. Legacy X10 (`CSI M Cb Cx Cy`, bytes = 32 +
/// value) has no release suffix: a release is always reported as cb=3, and
/// coordinates are clamped to 223 (the max encodable cell).
pub fn encode_mouse(
    encoding: MouseEncoding,
    cb: u8,
    col: usize,
    row: usize,
    pressed: bool,
) -> (r: Vec<u8>)
    requires
        col < usize::MAX,
        row < usize::MAX,
        encoding is X10 && pressed ==> cb <= 223,
    ensures
        r@ == mouse_report(encoding, cb, col as int, row as int, pressed),
{
    match encoding {
        MouseEncoding::Sgr => sgr_mouse(cb, col, row, pressed),
        MouseEncoding::X10 => {
            let code: u8 = if pressed {
                cb
            } else {
                3
            };
            let bytes: Vec<u8> = vec![
                0x1b,
                0x5b,
                0x4d,
                32 + code,
                x10_coordinate(col + 1),
                x10_coordinate(row + 1),
            ];
            proof {
                assert(bytes@ =~= x10_report(cb, col as int, row as int, pressed));
            }
            bytes
        },
    }
}

/// Button code for mouse reports.
pub open spec fn button_code(button: PointerButton) -> Option<u8> {
    match button {
        PointerButton::Primary => Some(0),
        PointerButton::Middle => Some(1),
        PointerButton::Secondary => Some(2),
        _ => None,
    }
}

/// Button code for SGR reporting; buttons we don't report yield `None`.
pub fn mouse_button_cb(button: PointerButton) -> (r: Option<u8>)
    ensures
        r == button_code(button),
{
    match button {
        PointerButton::Primary => Some(0),
        PointerButton::Middle => Some(1),
        PointerButton::Secondary => Some(2),
        _ => None,
    }
}

/// Which of the buttons that are held counts while the pointer moves.
pub open spec fn counting_button(primary: bool, middle: bool, secondary: bool) -> Option<
    PointerButton,
> {
    if primary {
        Some(PointerButton::Primary)
    } else if middle {
        Some(PointerButton::Middle)
    } else if secondary {
        Some(PointerButton::Secondary)
    } else {
        None
    }
}

/// Which of the buttons that are held counts while the pointer moves: the
/// primary one before the middle one before the secondary one.
pub fn held_of(primary: bool, middle: bool, secondary: bool) -> (r: Option<PointerButton>)
    ensures
        r == counting_button(primary, middle, secondary),
        r == if primary {
            Some(PointerButton::Primary)
        } else if middle {
            Some(PointerButton::Middle)
        } else if secondary {
            Some(PointerButton::Secondary)
        } else {
            None
        },
{
    if primary {
        Some(PointerButton::Primary)
    } else if middle {
        Some(PointerButton::Middle)
    } else if secondary {
        Some(PointerButton::Secondary)
    } else {
        None
    }
}

/// Code of a pointer move, given the button that is held and the tracking
/// level: with either level a move with a button held is reported as 32 more
/// than the button's code, and with `every_move` a plain move is 35.
pub open spec fn motion_code(
    held: Option<PointerButton>,
    held_moves: bool,
    every_move: bool,
) -> Option<u8> {
    match held {
        Some(button) => if held_moves || every_move {
            match button_code(button) {
                Some(cb) => Some((32 + cb) as u8),
                None => None,
            }
        } else {
            None
        },
        None => if every_move {
            Some(35)
        } else {
            None
        },
    }
}

/// SGR code for a pointer move, honoring the requested tracking level:
/// `held_moves` reports moves with a button held as 32+btn; `every_move`
/// also reports plain moves as 35.
pub fn mouse_motion_cb(held: Option<PointerButton>, held_moves: bool, every_move: bool) -> (r: Option<
    u8,
>)
    ensures
        r == motion_code(held, held_moves, every_move),
{
    match held {
        Some(button) => if held_moves || every_move {
            match mouse_button_cb(button) {
                Some(cb) => Some(32 + cb),
                None => None,
            }
        } else {
            None
        },
        None => if every_move {
            Some(35)
        } else {
            None
        },
    }
}

// ---------------------------------------------------------------------------
// Keys.

/// Control character for Ctrl+letter and friends (C0 control codes).
pub open spec fn control_code(key: Key) -> Option<u8> {
    match letter_place(key) {
        Some(i) => Some((i + 1) as u8),
        None => match key {
            Key::Space => Some(0x00),
            Key::OpenBracket => Some(0x1b),
            Key::Backslash => Some(0x1c),
            Key::CloseBracket => Some(0x1d),
            _ => None,
        },
    }
}

/// Control character for Ctrl+letter and friends (C0 control codes).
pub fn ctrl_byte(key: Key) -> (r: Option<u8>)
    ensures
        r == control_code(key),
{
    match letter(key) {
        Some(i) => Some(i + 1),
        None => match key {
            Key::Space => Some(0x00),
            Key::OpenBracket => Some(0x1b),
            Key::Backslash => Some(0x1c),
            Key::CloseBracket => Some(0x1d),
            _ => None,
        },
    }
}

/// The modifiers as the kitty keyboard protocol counts them: shift 1, alt 2,
/// ctrl 4.
pub open spec fn modifier_bits(mods: Modifiers) -> int {
    (if mods.shift {
        1int
    } else {
        0
    }) + (if mods.alt {
        2int
    } else {
        0
    }) + (if mods.ctrl {
        4int
    } else {
        0
    })
}

/// The number of a key in the kitty keyboard protocol. Letters and digits
/// produce text unless ctrl or alt is held.
pub open spec fn kitty_code(key: Key, mods: Modifiers) -> Option<int> {
    match key {
        Key::Enter => Some(13),
        Key::Tab => Some(9),
        Key::Escape => Some(27),
        Key::Backspace => Some(127),
        _ => if !(mods.ctrl || mods.alt) {
            None
        } else {
            match letter_place(key) {
                Some(i) => Some(97 + i),
                None => match digit_place(key) {
                    Some(d) => Some(48 + d),
                    None => None,
                },
            }
        },
    }
}

/// The kitty keyboard encoding of a modified key: `CSI code ; modifiers u`.
pub open spec fn kitty_text(key: Key, mods: Modifiers) -> Option<Seq<char>> {
    if modifier_bits(mods) == 0 {
        None
    } else {
        match kitty_code(key, mods) {
            Some(code) => Some(
                "\x1b["@ + digits(code as nat) + ";"@ + digits((modifier_bits(mods) + 1) as nat)
                    + "u"@,
            ),
            None => None,
        }
    }
}

/// Kitty keyboard protocol (`CSI u`) encoding for the DISAMBIGUATE mode.
///
/// Covers letters, digits and Enter/Tab/Escape/Backspace with modifiers;
/// key releases, alternate keys and the full kitty functional key table are
/// intentionally out of scope. Returns `None` for keys that keep their
/// legacy encoding (plain keys, shift-only letters — those produce text).
fn kitty_csi_u(key: Key, mods: Modifiers) -> (r: Option<Vec<u8>>)
    ensures
        match kitty_text(key, mods) {
            Some(text) => r matches Some(bytes) && bytes@ == bytes_of(text),
            None => r is None,
        },
{
    let mut bits: u8 = 0;
    if mods.shift {
        bits += 1;
    }
    if mods.alt {
        bits += 2;
    }
    if mods.ctrl {
        bits += 4;
    }
    if bits == 0 {
        return None;
    }
    let code: u8 = match key {
        Key::Enter => 13,
        Key::Tab => 9,
        Key::Escape => 27,
        Key::Backspace => 127,
        _ => {
            // Shift-only letters produce text; report them only with ctrl/alt.
            if !(mods.ctrl || mods.alt) {
                return None;
            }
            match letter(key) {
                Some(i) => 97 + i,
                None => match digit(key) {
                    Some(d) => 48 + d,
                    None => {
                        return None;
                    },
                },
            }
        },
    };
    let text = String::from_str("\x1b[").concat(unsigned_text(code as u64).as_str()).concat(
        ";",
    ).concat(unsigned_text((bits + 1) as u64).as_str()).concat("u");
    Some(text.as_str().as_bytes_vec())
}

/// The sequence of a key without modifiers that change it; arrows, Home and
/// End have another one in application cursor mode.
pub open spec fn plain_text(key: Key, shift: bool, app_cursor_mode: bool) -> Option<Seq<char>> {
    match key {
        Key::ArrowUp => if app_cursor_mode {
            Some("\x1bOA"@)
        } else {
            Some("\x1b[A"@)
        },
        Key::ArrowDown => if app_cursor_mode {
            Some("\x1bOB"@)
        } else {
            Some("\x1b[B"@)
        },
        Key::ArrowRight => if app_cursor_mode {
            Some("\x1bOC"@)
        } else {
            Some("\x1b[C"@)
        },
        Key::ArrowLeft => if app_cursor_mode {
            Some("\x1bOD"@)
        } else {
            Some("\x1b[D"@)
        },
        Key::Home => if app_cursor_mode {
            Some("\x1bOH"@)
        } else {
            Some("\x1b[H"@)
        },
        Key::End => if app_cursor_mode {
            Some("\x1bOF"@)
        } else {
            Some("\x1b[F"@)
        },
        Key::Tab => if shift {
            Some("\x1b[Z"@)
        } else {
            Some("\t"@)
        },
        Key::Enter => Some("\r"@),
        Key::Backspace => Some("\x7f"@),
        Key::Escape => Some("\x1b"@),
        Key::Delete => Some("\x1b[3~"@),
        Key::Insert => Some("\x1b[2~"@),
        Key::PageUp => Some("\x1b[5~"@),
        Key::PageDown => Some("\x1b[6~"@),
        Key::F1 => Some("\x1bOP"@),
        Key::F2 => Some("\x1bOQ"@),
        Key::F3 => Some("\x1bOR"@),
        Key::F4 => Some("\x1bOS"@),
        Key::F5 => Some("\x1b[15~"@),
        Key::F6 => Some("\x1b[17~"@),
        Key::F7 => Some("\x1b[18~"@),
        Key::F8 => Some("\x1b[19~"@),
        Key::F9 => Some("\x1b[20~"@),
        Key::F10 => Some("\x1b[21~"@),
        Key::F11 => Some("\x1b[23~"@),
        Key::F12 => Some("\x1b[24~"@),
        _ => None,
    }
}

/// The sequence of a key without modifiers that change it.
fn plain_sequence(key: Key, shift: bool, app_cursor_mode: bool) -> (r: Option<&'static str>)
    ensures
        match r {
            Some(text) => plain_text(key, shift, app_cursor_mode) == Some(text@),
            None => plain_text(key, shift, app_cursor_mode) is None,
        },
{
    match key {
        Key::ArrowUp => if app_cursor_mode {
            Some("\x1bOA")
        } else {
            Some("\x1b[A")
        },
        Key::ArrowDown => if app_cursor_mode {
            Some("\x1bOB")
        } else {
            Some("\x1b[B")
        },
        Key::ArrowRight => if app_cursor_mode {
            Some("\x1bOC")
        } else {
            Some("\x1b[C")
        },
        Key::ArrowLeft => if app_cursor_mode {
            Some("\x1bOD")
        } else {
            Some("\x1b[D")
        },
        Key::Home => if app_cursor_mode {
            Some("\x1bOH")
        } else {
            Some("\x1b[H")
        },
        Key::End => if app_cursor_mode {
            Some("\x1bOF")
        } else {
            Some("\x1b[F")
        },
        Key::Tab => if shift {
            Some("\x1b[Z")
        } else {
            Some("\t")
        },
        Key::Enter => Some("\r"),
        Key::Backspace => Some("\x7f"),
        Key::Escape => Some("\x1b"),
        Key::Delete => Some("\x1b[3~"),
        Key::Insert => Some("\x1b[2~"),
        Key::PageUp => Some("\x1b[5~"),
        Key::PageDown => Some("\x1b[6~"),
        Key::F1 => Some("\x1bOP"),
        Key::F2 => Some("\x1bOQ"),
        Key::F3 => Some("\x1bOR"),
        Key::F4 => Some("\x1bOS"),
        Key::F5 => Some("\x1b[15~"),
        Key::F6 => Some("\x1b[17~"),
        Key::F7 => Some("\x1b[18~"),
        Key::F8 => Some("\x1b[19~"),
        Key::F9 => Some("\x1b[20~"),
        Key::F10 => Some("\x1b[21~"),
        Key::F11 => Some("\x1b[23~"),
        Key::F12 => Some("\x1b[24~"),
        _ => None,
    }
}

/// The bytes that a pressed key sends; `None` where it produces text or is an
/// app-level shortcut.
pub open spec fn key_bytes(
    key: Key,
    mods: Modifiers,
    app_cursor_mode: bool,
    kitty_mode: bool,
) -> Option<Seq<u8>> {
    if mods.command {
        None
    } else if kitty_mode && kitty_text(key, mods) is Some {
        Some(bytes_of(kitty_text(key, mods)->0))
    } else if mods.ctrl && control_code(key) is Some {
        Some(seq![control_code(key)->0])
    } else {
        match plain_text(key, mods.shift, app_cursor_mode) {
            Some(text) => Some(bytes_of(text)),
            None => None,
        }
    }
}

/// Byte sequence for a pressed key, or `None` when the key produces regular
/// text or an app-level shortcut.
///
/// `kitty_mode` is the kitty keyboard protocol flag (DISAMBIGUATE and above)
/// requested by the program running in the terminal.
pub fn key_to_bytes(
    key: Key,
    mods: Modifiers,
    app_cursor_mode: bool,
    kitty_mode: bool,
) -> (r: Option<Vec<u8>>)
    ensures
        match key_bytes(key, mods, app_cursor_mode, kitty_mode) {
            Some(bytes) => r matches Some(v) && v@ == bytes,
            None => r is None,
        },
{
    // Command-modified keys are app shortcuts (Cmd+T/W/C/V/1..9).
    if mods.command {
        return None;
    }
    if kitty_mode {
        if let Some(bytes) = kitty_csi_u(key, mods) {
            return Some(bytes);
        }
    }
    if mods.ctrl {
        if let Some(byte) = ctrl_byte(key) {
            let bytes: Vec<u8> = vec![byte];
            proof {
                assert(bytes@ =~= seq![byte]);
            }
            return Some(bytes);
        }
    }
    match plain_sequence(key, mods.shift, app_cursor_mode) {
        Some(text) => Some(text.as_bytes_vec()),
        None => None,
    }
}

// ---------------------------------------------------------------------------
// Events.

/// What the program running in the terminal asked for, and what the view
/// shows.
#[derive(Debug, Clone, Copy, PartialEq, Eq, Structural)]
pub struct TermModes {
    /// Mouse events are reported to the program.
    pub mouse_report: bool,
    pub sgr_mouse: bool,
    /// Moves with a button held are reported.
    pub held_moves: bool,
    /// All moves are reported.
    pub every_move: bool,
    pub app_cursor: bool,
    pub kitty: bool,
    pub bracketed_paste: bool,
}

/// An input event for the terminal. Positions are cells of the view; `inside`
/// tells whether the pointer is over it.
pub enum InputEvent {
    /// Typed text, or text that an input method committed.
    Text(String),
    Paste(String),
    Copy,
    Button { button: PointerButton, pressed: bool, inside: bool, col: usize, row: usize },
    Moved { held: Option<PointerButton>, inside: bool, col: usize, row: usize },
    /// The wheel turned up, or down.
    Wheel { up: bool, inside: bool, col: usize, row: usize },
    Key { key: Key, mods: Modifiers },
}

/// What an input event asks for.
pub enum InputAction {
    Nothing,
    /// Send bytes to the program.
    Send(Vec<u8>),
    /// Send bytes to the program, and scroll the view to the bottom.
    Type(Vec<u8>),
    /// Copy the selection.
    Copy,
    /// An app-level shortcut.
    Shortcut(Key),
    ScrollPageUp,
    ScrollPageDown,
}

/// Model of [`InputAction`].
pub enum InputActionView {
    Nothing,
    Send(Seq<u8>),
    Type(Seq<u8>),
    Copy,
    Shortcut(Key),
    ScrollPageUp,
    ScrollPageDown,
}

impl View for InputAction {
    type V = InputActionView;

    open spec fn view(&self) -> InputActionView {
        match self {
            InputAction::Nothing => InputActionView::Nothing,
            InputAction::Send(bytes) => InputActionView::Send(bytes@),
            InputAction::Type(bytes) => InputActionView::Type(bytes@),
            InputAction::Copy => InputActionView::Copy,
            InputAction::Shortcut(key) => InputActionView::Shortcut(*key),
            InputAction::ScrollPageUp => InputActionView::ScrollPageUp,
            InputAction::ScrollPageDown => InputActionView::ScrollPageDown,
        }
    }
}

/// App-level shortcuts: Cmd+T, Cmd+W and Cmd+1..9.
pub open spec fn shortcut(key: Key, mods: Modifiers) -> bool {
    mods.command && (key is T || key is W || (digit_place(key) matches Some(d) && d > 0))
}

/// App-level shortcuts: Cmd+T/W and Cmd+1..9.
pub fn is_shortcut(key: Key, mods: Modifiers) -> (r: bool)
    ensures
        r == shortcut(key, mods),
{
    mods.command && match key {
        Key::T => true,
        Key::W => true,
        _ => digit_index(key).is_some(),
    }
}

/// What an app-level shortcut does.
#[derive(Debug, Clone, Copy, PartialEq, Eq, Structural)]
pub enum ShortcutAction {
    NewTab,
    CloseTab,
    /// Switch to the tab with this index.
    Switch(usize),
    Nothing,
}

/// What an app-level shortcut does.
pub open spec fn shortcut_effect(key: Key) -> ShortcutAction {
    match digit_place(key) {
        Some(d) => if d > 0 {
            ShortcutAction::Switch((d - 1) as usize)
        } else {
            ShortcutAction::Nothing
        },
        None => if key is T {
            ShortcutAction::NewTab
        } else if key is W {
            ShortcutAction::CloseTab
        } else {
            ShortcutAction::Nothing
        },
    }
}

/// What an app-level shortcut does.
pub fn shortcut_action(key: Key) -> (r: ShortcutAction)
    ensures
        r == shortcut_effect(key),
        match digit_place(key) {
            Some(d) => r == if d > 0 {
                ShortcutAction::Switch((d - 1) as usize)
            } else {
                ShortcutAction::Nothing
            },
            None => r == if key is T {
                ShortcutAction::NewTab
            } else if key is W {
                ShortcutAction::CloseTab
            } else {
                ShortcutAction::Nothing
            },
        },
{
    match digit_index(key) {
        Some(index) => ShortcutAction::Switch(index),
        None => match key {
            Key::T => ShortcutAction::NewTab,
            Key::W => ShortcutAction::CloseTab,
            _ => ShortcutAction::Nothing,
        },
    }
}

/// What a key press asks for: a shortcut, scrolling with Shift+PageUp and
/// Shift+PageDown, or bytes for the program.
pub open spec fn key_action(key: Key, mods: Modifiers, modes: TermModes) -> InputActionView {
    if shortcut(key, mods) {
        InputActionView::Shortcut(key)
    } else if mods.shift && key is PageUp {
        InputActionView::ScrollPageUp
    } else if mods.shift && key is PageDown {
        InputActionView::ScrollPageDown
    } else {
        match key_bytes(key, mods, modes.app_cursor, modes.kitty) {
            Some(bytes) => InputActionView::Type(bytes),
            None => InputActionView::Nothing,
        }
    }
}

/// The encoding of mouse reports.
pub open spec fn encoding_of(modes: TermModes) -> MouseEncoding {
    if modes.sgr_mouse {
        MouseEncoding::Sgr
    } else {
        MouseEncoding::X10
    }
}

/// What an input event asks for. `shift` tells that Shift is held, which keeps
/// the pointer's buttons from the program.
pub open spec fn event_action(
    event: InputEvent,
    modes: TermModes,
    shift: bool,
) -> InputActionView {
    match event {
        InputEvent::Text(text) => InputActionView::Type(bytes_of(text@)),
        InputEvent::Paste(text) => InputActionView::Type(
            bytes_of(pasted(text@, modes.bracketed_paste)),
        ),
        InputEvent::Copy => InputActionView::Copy,
        InputEvent::Button { button, pressed, inside, col, row } => match button_code(button) {
            Some(cb) => if modes.mouse_report && !shift && inside {
                let code = if pressed {
                    cb
                } else {
                    3
                };
                InputActionView::Send(
                    mouse_report(encoding_of(modes), code, col as int, row as int, pressed),
                )
            } else {
                InputActionView::Nothing
            },
            None => InputActionView::Nothing,
        },
        InputEvent::Moved { held, inside, col, row } => match motion_code(
            held,
            modes.held_moves,
            modes.every_move,
        ) {
            Some(cb) => if modes.mouse_report && inside {
                InputActionView::Send(
                    mouse_report(encoding_of(modes), cb, col as int, row as int, true),
                )
            } else {
                InputActionView::Nothing
            },
            None => InputActionView::Nothing,
        },
        InputEvent::Wheel { up, inside, col, row } => if modes.mouse_report && inside {
            let cb: u8 = if up {
                64
            } else {
                65
            };
            InputActionView::Send(
                mouse_report(encoding_of(modes), cb, col as int, row as int, true),
            )
        } else {
            InputActionView::Nothing
        },
        InputEvent::Key { key, mods } => key_action(key, mods, modes),
    }
}

/// A position that a report can count from 1.
pub open spec fn in_range(event: InputEvent) -> bool {
    match event {
        InputEvent::Button { col, row, .. } => col < usize::MAX && row < usize::MAX,
        InputEvent::Moved { col, row, .. } => col < usize::MAX && row < usize::MAX,
        InputEvent::Wheel { col, row, .. } => col < usize::MAX && row < usize::MAX,
        _ => true,
    }
}

/// What an input event asks for.
pub fn handle_event(event: &InputEvent, modes: TermModes, shift: bool) -> (r: InputAction)
    requires
        in_range(*event),
    ensures
        r@ == event_action(*event, modes, shift),
{
    let encoding = mouse_encoding(modes.sgr_mouse);
    match event {
        InputEvent::Text(text) => InputAction::Type(text.as_str().as_bytes_vec()),
        InputEvent::Paste(text) => InputAction::Type(
            paste_bytes(text.as_str(), modes.bracketed_paste),
        ),
        InputEvent::Copy => InputAction::Copy,
        InputEvent::Button { button, pressed, inside, col, row } => {
            if modes.mouse_report && !shift && *inside {
                if let Some(cb) = mouse_button_cb(*button) {
                    let code: u8 = if *pressed {
                        cb
                    } else {
                        3
                    };
                    return InputAction::Send(encode_mouse(encoding, code, *col, *row, *pressed));
                }
            }
            InputAction::Nothing
        },
        InputEvent::Moved { held, inside, col, row } => {
            if modes.mouse_report && *inside {
                if let Some(cb) = mouse_motion_cb(*held, modes.held_moves, modes.every_move) {
                    return InputAction::Send(encode_mouse(encoding, cb, *col, *row, true));
                }
            }
            InputAction::Nothing
        },
        InputEvent::Wheel { up, inside, col, row } => {
            if modes.mouse_report && *inside {
                let cb: u8 = if *up {
                    64
                } else {
                    65
                };
                return InputAction::Send(encode_mouse(encoding, cb, *col, *row, true));
            }
            InputAction::Nothing
        },
        InputEvent::Key { key, mods } => handle_key(*key, *mods, modes),
    }
}

/// One key press for the terminal: shortcuts, scroll keys, then escape
/// sequences.
fn handle_key(key: Key, mods: Modifiers, modes: TermModes) -> (r: InputAction)
    ensures
        r@ == key_action(key, mods, modes),
{
    if is_shortcut(key, mods) {
        return InputAction::Shortcut(key);
    }
    if mods.shift {
        match key {
            Key::PageUp => {
                return InputAction::ScrollPageUp;
            },
            Key::PageDown => {
                return InputAction::ScrollPageDown;
            },
            _ => {},
        }
    }
    match key_to_bytes(key, mods, modes.app_cursor, modes.kitty) {
        Some(bytes) => InputAction::Type(bytes),
        None => InputAction::Nothing,
    }
}

/// Typing: text, a paste, or a key that is no shortcut.
pub open spec fn types(event: InputEvent) -> bool {
    match event {
        InputEvent::Text(_) => true,
        InputEvent::Paste(_) => true,
        InputEvent::Key { key, mods } => !shortcut(key, mods),
        _ => false,
    }
}

/// Whether an event is typing, which makes a blinking cursor visible: text, a
/// paste, or a key that is no shortcut.
pub fn is_typing(event: &InputEvent) -> (r: bool)
    ensures
        r == types(*event),
        r == match event {
            InputEvent::Text(_) => true,
            InputEvent::Paste(_) => true,
            InputEvent::Key { key, mods } => !shortcut(*key, *mods),
            _ => false,
        },
{
    match event {
        InputEvent::Text(_) => true,
        InputEvent::Paste(_) => true,
        InputEvent::Key { key, mods } => !is_shortcut(*key, *mods),
        _ => false,
    }
}

/// Whether the wheel scrolls the scrollback: only when the program didn't take
/// the mouse.
pub fn wheel_scrolls(modes: TermModes) -> (r: bool)
    ensures
        r == !modes.mouse_report,
{
    !modes.mouse_report
}

/// Whether the mouse selects text: when the program didn't take the mouse, and
/// with Shift in any case.
pub fn mouse_selects(modes: TermModes, shift: bool) -> (r: bool)
    ensures
        r == (!modes.mouse_report || shift),
{
    !modes.mouse_report || shift
}

// ---------------------------------------------------------------------------
// Laws.

/// A key with the command modifier never sends bytes to the program.
pub proof fn law_command_keys_send_nothing(
    key: Key,
    mods: Modifiers,
    app_cursor_mode: bool,
    kitty_mode: bool,
)
    requires
        mods.command,
    ensures
        key_bytes(key, mods, app_cursor_mode, kitty_mode) is None,
{
}

/// Without modifiers the kitty protocol changes nothing.
pub proof fn law_kitty_keeps_plain_keys(key: Key, mods: Modifiers, app_cursor_mode: bool)
    requires
        !mods.alt && !mods.ctrl && !mods.shift,
    ensures
        key_bytes(key, mods, app_cursor_mode, true) == key_bytes(key, mods, app_cursor_mode, false),
{
}

/// Without a request of the program the mouse is never reported.
pub proof fn law_mouse_is_reported_on_request_only(
    event: InputEvent,
    modes: TermModes,
    shift: bool,
)
    requires
        !modes.mouse_report,
    ensures
        !(event_action(event, modes, shift) is Send),
{
}

/// Every coordinate of the legacy encoding is a byte past the control codes,
/// whatever the cell.
pub proof fn law_x10_coordinates_fit(v: int)
    requires
        v >= 1,
    ensures
        33 <= x10_byte(v),
        v <= 223 ==> x10_byte(v) == v + 32,
        v >= 223 ==> x10_byte(v) == 255,
{
}

/// A paste without brackets is the text itself, and with brackets the text
/// between the markers.
pub proof fn law_paste(text: Seq<char>)
    ensures
        pasted(text, false) == text,
        pasted(text, true).len() == text.len() + 12,
        pasted(text, true).subrange(6, 6 + text.len() as int) == text,
{
    reveal_strlit("\x1b[200~");
    reveal_strlit("\x1b[201~");
    assert(pasted(text, true).subrange(6, 6 + text.len() as int) =~= text);
}

} // verus!
