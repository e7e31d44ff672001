use stock_calc::format::{clean_number, edit_number, fmt_whole, normalize_symbol, reformat};

#[test]
fn reformats_while_typing() {
    // typed "1234" with cursor at end
    assert_eq!(reformat("1234", 4), ("1'234".into(), 5));
    // inserted a digit in the middle: "1'2534" cursor after '5' (idx 4)
    assert_eq!(reformat("1'2534", 4), ("12'534".into(), 4));
    // letters are dropped
    assert_eq!(reformat("1a23", 4), ("123".into(), 3));
    // leading zeros
    assert_eq!(reformat("0005", 4), ("5".into(), 1));
    // decimals are rounded away
    assert_eq!(reformat("12345.6789", 10), ("12'346".into(), 6));
    assert_eq!(reformat("245.", 4), ("245".into(), 3));
    assert_eq!(reformat(".4", 2), ("".into(), 0));
}

#[test]
fn reformat_rounds_pasted_decimals() {
    assert_eq!(reformat("245.7", 5), ("246".into(), 3));
    assert_eq!(reformat("999.5", 5), ("1'000".into(), 5));
    assert_eq!(reformat(".5", 2), ("1".into(), 1));
    assert_eq!(reformat("0.4", 3), ("0".into(), 1));
    assert_eq!(reformat("007.9", 5), ("8".into(), 1));
    assert_eq!(reformat("1'234.49", 8), ("1'234".into(), 5));
    assert_eq!(reformat("12.3.7", 6), ("12".into(), 2));
}

#[test]
fn reformat_places_cursor_after_same_digits() {
    assert_eq!(reformat("1234567", 0), ("1'234'567".into(), 0));
    assert_eq!(reformat("1234567", 1), ("1'234'567".into(), 1));
    assert_eq!(reformat("1234567", 2), ("1'234'567".into(), 3));
    assert_eq!(reformat("1234567", 100), ("1'234'567".into(), 9));
    // all zeros collapse to one zero
    assert_eq!(reformat("000", 3), ("0".into(), 1));
    assert_eq!(reformat("000", 0), ("0".into(), 0));
    assert_eq!(reformat("", 0), ("".into(), 0));
    assert_eq!(reformat("abc", 2), ("".into(), 0));
}

#[test]
fn reformat_is_stable() {
    for raw in ["1234567", "0012'3", "245.7", "x9y9z9", "000", ".4", "999.9"] {
        let (once, _) = reformat(raw, 3);
        let (twice, _) = reformat(&once, 1);
        assert_eq!(once, twice);
    }
}

#[test]
fn reformat_keeps_value() {
    let (t, _) = reformat("00012a345'6", 4);
    assert_eq!(t.replace('\'', "").parse::<u64>().unwrap(), 123456);
}

#[test]
fn groups_whole_numbers() {
    assert_eq!(fmt_whole(false, "1234568"), "1'234'568");
    assert_eq!(fmt_whole(true, "1234"), "-1'234");
    assert_eq!(fmt_whole(false, "3"), "3");
    assert_eq!(fmt_whole(false, "123"), "123");
    assert_eq!(fmt_whole(false, "123456"), "123'456");
    assert_eq!(fmt_whole(false, ""), "");
}

#[test]
fn cleans_number_text() {
    assert_eq!(clean_number("1'234"), "1234");
    assert_eq!(clean_number(" 12 345\t"), "12345");
    assert_eq!(clean_number("245.7"), "245.7");
    assert_eq!(clean_number("\u{a0}9'9\u{3000}"), "99");
    assert_eq!(clean_number("''"), "");
}

#[test]
fn normalizes_symbols() {
    assert_eq!(normalize_symbol("aapl"), "AAPL");
    assert_eq!(normalize_symbol(" n v d a "), "NVDA");
    assert_eq!(normalize_symbol("brk.b"), "BRK.B");
    assert_eq!(normalize_symbol("ß"), "SS");
    assert_eq!(normalize_symbol(""), "");
}

#[test]
fn deleting_a_separator_deletes_the_digit_before_it() {
    // "1'234" with the separator backspaced away, cursor after '1'
    assert_eq!(edit_number("1'234", "1234", 1, false), ("234".into(), 0));
    // forward delete of the separator removes the digit after it
    assert_eq!(edit_number("1'234", "1234", 1, true), ("134".into(), 1));
    // backspace at the very start deletes nothing extra
    assert_eq!(edit_number("'234", "234", 0, false), ("234".into(), 0));
}

#[test]
fn other_edits_are_just_reformatted() {
    // a digit deleted
    assert_eq!(edit_number("1'234", "1'34", 2, false), ("134".into(), 1));
    // a digit typed
    assert_eq!(edit_number("123", "1234", 4, false), ("1'234".into(), 5));
    // everything deleted
    assert_eq!(edit_number("5", "", 0, false), ("".into(), 0));
}

#[test]
fn a_lone_separator_deletion_would_come_back() {
    // what reformatting alone would do after backspacing the separator
    assert_eq!(reformat("1234", 1), ("1'234".into(), 1));
    assert_eq!(reformat("12345'678", 2), ("12'345'678".into(), 2));
}

#[test]
fn reformatted_text_and_cursor_are_at_rest() {
    for (raw, cur) in [("1234567", 2), ("0005", 4), ("000", 3), ("245.7", 5), ("12a3", 1), ("", 0)] {
        let (t, p) = reformat(raw, cur);
        assert_eq!(reformat(&t, p), (t.clone(), p));
    }
}
