use mkline::text::{blank, decimal_string, join_strings, trimmed, white_space};

#[test]
fn white_space_agrees_with_std_on_every_char() {
    for u in 0u32..=0x10FFFF {
        if let Some(c) = char::from_u32(u) {
            assert_eq!(white_space(c), c.is_whitespace(), "code point {:#x}", u);
        }
    }
}

#[test]
fn blank_texts() {
    assert!(blank(""));
    assert!(blank("  \t\n"));
    assert!(blank("\u{3000}\u{a0}"));
    assert!(!blank(" a "));
    assert!(!blank("C:\\data"));
}

#[test]
fn trimmed_agrees_with_str_trim() {
    let cases = [
        "",
        "   ",
        "abc",
        "  abc  ",
        "\u{3000}目标\u{a0}",
        "\t a b \n",
        "x ",
        " x",
    ];
    for c in cases {
        assert_eq!(trimmed(c), c.trim());
    }
}

#[test]
fn join_strings_puts_separator_between() {
    let parts = vec!["a".to_string(), "b".to_string(), "c".to_string()];
    assert_eq!(join_strings(&parts, ", "), "a, b, c");
    assert_eq!(join_strings(&vec!["x".to_string()], "\n"), "x");
    assert_eq!(join_strings(&Vec::new(), "\n"), "");
}

#[test]
fn decimal_string_agrees_with_format() {
    for n in [0usize, 7, 9, 10, 42, 100, 1234, 99999, usize::MAX] {
        assert_eq!(decimal_string(n), format!("{}", n));
    }
}
