//! Colors of the configuration, and tab titles.

use comma::config::{default_tab_title, parse_hex_color, Colors, Rgb};

#[test]
fn hex_color_parsing() {
    assert_eq!(parse_hex_color("#d8d8d8"), Some(Rgb { r: 0xd8, g: 0xd8, b: 0xd8 }));
    assert_eq!(parse_hex_color("#1D1f21"), Some(Rgb { r: 0x1d, g: 0x1f, b: 0x21 }));
    assert_eq!(parse_hex_color("d8d8d8"), None); // missing '#'
    assert_eq!(parse_hex_color("#xyzxyz"), None); // not hex
    assert_eq!(parse_hex_color("#123"), None); // too short
}

#[test]
fn hex_colors_are_six_digits() {
    assert_eq!(parse_hex_color("#00ff0A"), Some(Rgb { r: 0, g: 255, b: 10 }));
    assert_eq!(parse_hex_color("#1234567"), None);
    assert_eq!(parse_hex_color("##12345"), None);
    assert_eq!(parse_hex_color("#é1234"), None);
    assert_eq!(parse_hex_color(""), None);
}

#[test]
fn indexed_overrides_are_in_palette_order() {
    let colors = Colors {
        black: Some("0".into()),
        white: Some("7".into()),
        bright_black: Some("8".into()),
        bright_white: Some("15".into()),
        ..Default::default()
    };
    let slots = colors.indexed();
    assert_eq!(slots[0].as_deref(), Some("0"));
    assert_eq!(slots[7].as_deref(), Some("7"));
    assert_eq!(slots[8].as_deref(), Some("8"));
    assert_eq!(slots[15].as_deref(), Some("15"));
    assert_eq!(slots.iter().filter(|slot| slot.is_some()).count(), 4);
}

#[test]
fn default_titles_are_numbered() {
    assert_eq!(default_tab_title(0), "shell 0");
    assert_eq!(default_tab_title(120), "shell 120");
}
