use pilar_core::text::trim_whitespace;

#[test]
fn trim_removes_unicode_white_space_at_both_ends_only() {
    assert_eq!(trim_whitespace("\t\n  a b \u{a0}\u{3000}"), "a b");
    assert_eq!(trim_whitespace("   "), "");
    assert_eq!(trim_whitespace(""), "");
    assert_eq!(trim_whitespace("x"), "x");
}
