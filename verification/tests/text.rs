//! Small text operations, held against std.

use tinyhivemind::text::is_blank;

#[test]
fn blankness_is_what_trim_empties_for_every_character() {
    for code in 0u32..=0x10FFFF {
        if let Some(c) = char::from_u32(code) {
            let one = c.to_string();
            assert_eq!(is_blank(&one), one.trim().is_empty(), "U+{code:04X}");
            assert_eq!(is_blank(&one), c.is_whitespace(), "U+{code:04X}");
        }
    }
    assert!(is_blank(""));
    assert!(is_blank(" \t\n\u{3000}"));
    assert!(!is_blank(" a "));
}
