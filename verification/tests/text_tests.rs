use emend_lt::text::is_whitespace_char;

#[test]
fn whitespace_agrees_with_std() {
    for v in 0u32..0x11000 {
        if let Some(c) = char::from_u32(v) {
            assert_eq!(is_whitespace_char(c), c.is_whitespace(), "U+{v:04X}");
        }
    }
    assert!(is_whitespace_char(' '));
    assert!(is_whitespace_char('\u{3000}'));
    assert!(!is_whitespace_char('a'));
    assert!(!is_whitespace_char('\u{180e}'));
}
