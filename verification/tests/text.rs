use aionfm::text::{ascii_lowercase, is_blank, push_decimal, starts_with, text_less, trim_start_matches, trimmed};

#[test]
fn text_helpers_match_std() {
    for s in ["", "  a b \t", "\u{3000}x\u{85}", "  ", "abc"] {
        assert_eq!(trimmed(s), s.trim());
        assert_eq!(is_blank(s), s.trim().is_empty());
        assert_eq!(ascii_lowercase(s), s.to_ascii_lowercase());
    }
    assert_eq!(ascii_lowercase("MiXeD_Ü"), "mixed_Ü");
    assert!(starts_with("covariate_x", "covariate_"));
    assert!(!starts_with("cov", "covariate_"));
    assert_eq!(trim_start_matches("abab_c", "ab"), "_c");
    for (a, b) in [("a", "b"), ("ab", "a"), ("", "a"), ("é", "z"), ("Z", "a"), ("same", "same")] {
        assert_eq!(text_less(a, b), a < b);
    }
    let mut s = String::from("n=");
    push_decimal(&mut s, 1204);
    assert_eq!(s, "n=1204");
}
