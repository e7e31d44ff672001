use stock_calc::labels::{positions_label, removal_question};

#[test]
fn counts_positions() {
    assert_eq!(positions_label(0), "0 positions");
    assert_eq!(positions_label(1), "1 position");
    assert_eq!(positions_label(2), "2 positions");
    assert_eq!(positions_label(10), "10 positions");
    assert_eq!(positions_label(1234), "1234 positions");
    assert_eq!(positions_label(usize::MAX), format!("{} positions", usize::MAX));
}

#[test]
fn asks_before_removing() {
    assert_eq!(removal_question("AAPL"), "Remove AAPL from your portfolio?");
    assert_eq!(removal_question(""), "Remove this stock from your portfolio?");
}
