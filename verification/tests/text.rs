use stock_calc::text::{chars_of, eq_ignore_ascii_case, is_whitespace, string_of};

#[test]
fn whitespace_matches_std() {
    for n in 0u32..=0x10FFFF {
        if let Some(c) = char::from_u32(n) {
            assert_eq!(is_whitespace(c), c.is_whitespace(), "U+{:04X}", n);
        }
    }
}

#[test]
fn ascii_case_insensitive_equality() {
    let a = chars_of("PortFolio.EXE");
    let b = chars_of("portfolio.exe");
    assert!(eq_ignore_ascii_case(&a, &b));
    assert!(!eq_ignore_ascii_case(&chars_of("portfolio.ex"), &b));
    assert!(!eq_ignore_ascii_case(&chars_of("ÄB"), &chars_of("äb")));
    for (x, y) in [("ABC", "abc"), ("a-Z", "A-z"), ("x", "y"), ("ÉÉ", "éé")] {
        assert_eq!(
            eq_ignore_ascii_case(&chars_of(x), &chars_of(y)),
            x.eq_ignore_ascii_case(y)
        );
    }
}

#[test]
fn chars_round_trip() {
    let s = "1'234 ünïcödé ✔";
    assert_eq!(string_of(&chars_of(s)), s);
    assert_eq!(chars_of(s).len(), s.chars().count());
}
