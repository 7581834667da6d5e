//! Texts, numbers, order and variables.

use comma::env::Env;
use comma::number::{
    parse_i32, parse_i64, parse_u32, parse_usize, signed_text, unsigned_text,
};
use comma::order::{insert_once, sort_texts, text_before};
use comma::text::{is_whitespace, join_texts, same_text, trim_text};

#[test]
fn white_space_is_the_unicode_property() {
    for code in 0..=0x10ffffu32 {
        if let Some(c) = char::from_u32(code) {
            assert_eq!(is_whitespace(c), c.is_whitespace(), "{code:x}");
        }
    }
}

#[test]
fn numbers_are_written_like_the_standard_library_writes_them() {
    for n in [0i64, 9, 10, -1, -10, 12345, i64::MAX, i64::MIN] {
        assert_eq!(signed_text(n), n.to_string());
        assert_eq!(parse_i64(&n.to_string()), Some(n));
    }
    for n in [0u64, 7, 100, u64::MAX] {
        assert_eq!(unsigned_text(n), n.to_string());
    }
}

#[test]
fn numbers_are_read_like_the_standard_library_reads_them() {
    for text in [
        "", "+", "-", "+5", "-5", "05", "--5", "5x", " 5", "2147483647", "2147483648",
        "-2147483648", "-2147483649", "4294967295", "4294967296", "99999999999999999999",
        "18446744073709551615", "18446744073709551616", "-0", "٣",
    ] {
        assert_eq!(parse_i64(text), text.parse().ok(), "{text}");
        assert_eq!(parse_i32(text), text.parse().ok(), "{text}");
        assert_eq!(parse_u32(text), text.parse().ok(), "{text}");
        assert_eq!(parse_usize(text), text.parse().ok(), "{text}");
    }
}

#[test]
fn texts_are_ordered_like_the_standard_library_orders_them() {
    let texts = ["", "a", "B", "ab", "é", "z", "世", "a b", "\u{10ffff}", "\u{ffff}"];
    for a in texts {
        for b in texts {
            assert_eq!(text_before(a, b), a < b, "{a} {b}");
            assert_eq!(same_text(a, b), a == b);
        }
    }
    let mut expected: Vec<String> = texts.iter().map(|t| t.to_string()).collect();
    expected.extend(["a".to_string(), "B".to_string()]);
    let sorted = sort_texts(expected.clone());
    expected.sort();
    assert_eq!(sorted, expected);
    let mut set = Vec::new();
    for text in ["b", "a", "b", "c", "a"] {
        insert_once(&mut set, &text.to_string());
    }
    assert_eq!(set, ["a", "b", "c"]);
}

#[test]
fn trimming_and_joining() {
    assert_eq!(trim_text("\u{2003} a b\t\n"), "a b");
    assert_eq!(trim_text("   "), "");
    let parts = ["a".to_string(), String::new(), "b".to_string()];
    assert_eq!(join_texts(&parts, ", "), "a, , b");
    assert_eq!(join_texts(&[], ", "), "");
}

#[test]
fn variables_are_set_and_removed() {
    let pair = |k: &str, v: &str| (k.to_string(), v.to_string());
    let mut env = Env::from_pairs(vec![pair("b", "1"), pair("a", "2"), pair("b", "3")]);
    assert_eq!(env.get("b").as_deref(), Some("3"));
    assert_eq!(env.get("c"), None);
    env.insert("c".into(), "4".into());
    env.insert("a".into(), "5".into());
    env.remove("b");
    env.remove("zz");
    assert_eq!(env.entries(), &vec![pair("a", "5"), pair("c", "4")]);
    assert!(env.contains_key("c"));
    assert!(!env.contains_key("b"));
}
