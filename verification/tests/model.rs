use stock_calc::model::{data_folder, same_price, CalculatorData, HistoryEntry, SavedFile};

#[test]
fn history_keeps_one_entry_per_symbol_newest_first() {
    let mut d = CalculatorData {
        symbol: "AAA".into(),
        entry: 10.0f64.to_bits(),
        stop_loss: 9.0f64.to_bits(),
        risk_amount: 100.0f64.to_bits(),
        ..Default::default()
    };
    d.record_history();
    d.history[0].modified = 1; // pretend it is old
    d.symbol = "BBB".into();
    d.record_history();
    assert_eq!(d.history.len(), 2);
    assert_eq!(d.history[0].symbol, "BBB");

    // Unchanged inputs don't touch the timestamp.
    d.symbol = "AAA".into();
    d.record_history();
    assert_eq!(d.history[1].symbol, "AAA");
    assert_eq!(d.history[1].modified, 1);

    // Changed inputs update the existing entry and move it to the top.
    d.entry = 11.0f64.to_bits();
    d.record_history();
    assert_eq!(d.history.len(), 2);
    assert_eq!((d.history[0].symbol.as_str(), d.history[0].entry), ("AAA", 11.0f64.to_bits()));
}

fn entry(symbol: &str, entry: f64, modified: u64) -> HistoryEntry {
    HistoryEntry {
        symbol: symbol.into(),
        entry: entry.to_bits(),
        stop_loss: 1.0f64.to_bits(),
        risk_amount: 50.0f64.to_bits(),
        modified,
    }
}

#[test]
fn no_symbol_records_nothing() {
    let mut d = CalculatorData { entry: 5.0f64.to_bits(), ..Default::default() };
    d.record_history_at(7);
    assert!(d.history.is_empty());
}

#[test]
fn recording_at_a_time_stamps_the_entry() {
    let mut d = CalculatorData {
        symbol: "CCC".into(),
        entry: 20.0f64.to_bits(),
        stop_loss: 1.0f64.to_bits(),
        risk_amount: 50.0f64.to_bits(),
        history: vec![entry("AAA", 1.0, 3), entry("CCC", 19.0, 4), entry("BBB", 2.0, 5)],
    };
    d.record_history_at(100);
    let symbols: Vec<&str> = d.history.iter().map(|e| e.symbol.as_str()).collect();
    assert_eq!(symbols, ["CCC", "AAA", "BBB"]);
    assert_eq!(d.history[0], entry("CCC", 20.0, 100));
    // a second recording with the same inputs changes nothing
    let before = d.clone();
    d.record_history_at(200);
    assert_eq!(d, before);
}

#[test]
fn prices_compare_like_f64() {
    let vals = [0.0f64, -0.0, 1.0, -1.0, 245.7, f64::INFINITY, f64::NEG_INFINITY, f64::NAN, -f64::NAN, f64::MIN_POSITIVE];
    for a in vals {
        for b in vals {
            assert_eq!(same_price(a.to_bits(), b.to_bits()), a == b, "{a} {b}");
        }
    }
}

#[test]
fn a_negative_zero_price_is_unchanged_and_a_nan_price_always_changes() {
    let mut d = CalculatorData {
        symbol: "ZZZ".into(),
        entry: (-0.0f64).to_bits(),
        stop_loss: 1.0f64.to_bits(),
        risk_amount: 50.0f64.to_bits(),
        history: vec![entry("ZZZ", 0.0, 3)],
    };
    d.record_history_at(9);
    assert_eq!(d.history, vec![entry("ZZZ", 0.0, 3)]);
    d.entry = f64::NAN.to_bits();
    d.record_history_at(10);
    d.record_history_at(11);
    assert_eq!(d.history.len(), 1);
    assert_eq!(d.history[0].modified, 11);
}

#[test]
fn saved_files_share_a_folder_under_different_names() {
    assert_eq!(data_folder(), "StockCalc");
    assert_eq!(SavedFile::Portfolio.file_name(), "portfolio.json");
    assert_eq!(SavedFile::Calculator.file_name(), "stockcalc.json");
}
