use tax_ledger::interactive_brokers::{filter_lines, Error};

#[test]
fn test_filter_lines_keeps_matches_in_order() {
    let lines: Vec<String> = vec![
        "Trades,Data,Order,Stocks,USD,AAPL".to_string(),
        "Dividends,Data,USD,2020-01-02,AAPL(x) dividend,1.23".to_string(),
        "Trades,Data,Order,Stocks,USD,MSFT".to_string(),
    ];
    let out = filter_lines(&lines, |line: &String| line.starts_with("Trades,Data,Order,Stocks"));
    assert_eq!(out, "Trades,Data,Order,Stocks,USD,AAPL\nTrades,Data,Order,Stocks,USD,MSFT\n");
}

#[test]
fn test_filter_lines_empty() {
    let lines: Vec<String> = vec!["a".to_string(), "b".to_string()];
    let out = filter_lines(&lines, |_line: &String| false);
    assert_eq!(out, "");
}

#[test]
fn test_error_reason() {
    let e = Error::new("No activities");
    assert_eq!(e.reason, "No activities");
}
