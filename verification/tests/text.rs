use debug_blargg::text::{chars_of, contains, same_text};

#[test]
fn searching() {
    let words = ["", "a", "ab", "aab", "aaab", "HALT", "HAL", "xHALTx", "HHALT", "HAHALT", "\u{e9}t\u{e9}"];
    for s in words {
        for p in words {
            assert_eq!(contains(s, p), s.contains(p), "{} in {}", p, s);
            assert_eq!(same_text(s, p), s == p);
        }
        assert_eq!(chars_of(s), s.chars().collect::<Vec<char>>());
    }
    assert!(contains("LD_8_TO_FF_IMMEDIATE(5)", "LD_8_TO_FF_IMMEDIATE(5)"));
    assert!(!contains("LD_8_TO_FF_IMMEDIATE(50)", "LD_8_TO_FF_IMMEDIATE(5)"));
}
