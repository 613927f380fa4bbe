use loadforge::text::{
    char_is_white, chars_of, decimal_text, next_line, read_unsigned, spells_ignoring_case,
    str_contains, str_less, string_of, trimmed, without_trailing,
};

#[test]
fn white_space_is_that_of_std() {
    for n in 0..=0x10ffffu32 {
        if let Some(c) = char::from_u32(n) {
            assert_eq!(char_is_white(c), c.is_whitespace(), "{:?}", c);
        }
    }
}

#[test]
fn trimming_is_that_of_std() {
    for text in ["", " ", "a", "  a b\t\n", "\u{3000}x\u{85}", "\r\n"] {
        let chars = chars_of(text);
        assert_eq!(string_of(trimmed(&chars)), text.trim());
    }
    let chars = chars_of("host:80::");
    assert_eq!(string_of(without_trailing(&chars, ':')), "host:80");
}

#[test]
fn lines_are_those_of_std() {
    for text in ["", "\n", "a", "a\n", "a\nb", "a\r\nb\r\n", "\n\na\r", "a\r\r\nb"] {
        let chars = chars_of(text);
        let mut found = Vec::new();
        let mut from = 0;
        while from < chars.len() {
            let (end, next) = next_line(&chars, from);
            found.push(string_of(&chars[from..end]));
            from = next;
        }
        let expected: Vec<String> = text.lines().map(String::from).collect();
        assert_eq!(found, expected, "{:?}", text);
    }
}

#[test]
fn numbers_are_read_like_std() {
    for text in ["", "+", "-1", "0", "007", "+8", "65535", "65536", "18446744073709551615", "1x"] {
        let chars = chars_of(text);
        assert_eq!(read_unsigned(&chars, u64::MAX), text.parse::<u64>().ok(), "{}", text);
        assert_eq!(
            read_unsigned(&chars, u16::MAX as u64).map(|n| n as u16),
            text.parse::<u16>().ok(),
            "{}",
            text
        );
    }
}

#[test]
fn numbers_are_written_in_decimal() {
    for n in [0, 7, 10, 443, 65535, u64::MAX] {
        assert_eq!(decimal_text(n), n.to_string());
        assert_eq!(read_unsigned(&chars_of(&decimal_text(n)), u64::MAX), Some(n));
    }
}

#[test]
fn texts_are_ordered_like_std() {
    let words = ["", "a", "ab", "b", "B", "\u{e9}", "\u{10000}", "\u{ffff}"];
    for a in words {
        for b in words {
            assert_eq!(str_less(a, b), a < b, "{:?} {:?}", a, b);
        }
    }
}

#[test]
fn parts_are_found() {
    assert!(str_contains("hello", "ell"));
    assert!(str_contains("hello", ""));
    assert!(!str_contains("hello", "elo"));
    assert!(!str_contains("", "x"));
    assert!(spells_ignoring_case(&chars_of("Sec-WebSocket-Accept"), "sec-websocket-accept"));
    assert!(!spells_ignoring_case(&chars_of("\u{212a}"), "k"));
}
