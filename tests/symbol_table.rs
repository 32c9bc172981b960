use stock_analyser::finnhub_data_row::FinnhubDataRow;
use stock_analyser::symbol_table::{IngestError, SymbolTable};

fn trade(symbol: &str, price: i64, volume: i64, time: i64) -> FinnhubDataRow {
    FinnhubDataRow { c: 0, p: price, s: symbol.to_string(), e: String::new(), t: time, v: volume }
}

fn names(reports: &[stock_analyser::symbol_table::SymbolReport]) -> Vec<String> {
    reports.iter().map(|r| r.stock_name.clone()).collect()
}

#[test]
fn first_sight_creates_one_window_set() {
    let mut table = SymbolTable::new(vec![1000, 60_000]);
    assert_eq!(table.ingest(&trade("XYZ", 500, 1, 10)), Ok(()));
    assert_eq!(table.ingest(&trade("XYZ", 510, 2, 10)), Ok(()));
    assert_eq!(table.symbol_count(), 1);
    let reports = table.publish();
    assert_eq!(reports.len(), 1);
    assert_eq!(reports[0].stock_name, "XYZ");
    assert_eq!(reports[0].summaries.len(), 2);
    for s in reports[0].summaries.iter() {
        assert_eq!(s.num_of_trades, 2);
        assert_eq!(s.volume_moved, 3);
    }
}

#[test]
fn each_dirty_symbol_is_published_once() {
    let mut table = SymbolTable::new(vec![1000]);
    table.ingest(&trade("AAPL", 100, 1, 1)).unwrap();
    table.ingest(&trade("MSFT", 200, 1, 2)).unwrap();
    table.ingest(&trade("AAPL", 101, 1, 3)).unwrap();
    assert_eq!(names(&table.publish()), vec!["AAPL".to_string(), "MSFT".to_string()]);
    assert!(table.publish().is_empty());
    table.ingest(&trade("MSFT", 201, 1, 4)).unwrap();
    assert_eq!(names(&table.publish()), vec!["MSFT".to_string()]);
    assert_eq!(table.symbol_count(), 2);
}

#[test]
fn trade_reaches_every_horizon() {
    let mut table = SymbolTable::new(vec![10, 1000]);
    table.ingest(&trade("A", 100, 1, 0)).unwrap();
    table.ingest(&trade("A", 300, 1, 500)).unwrap();
    let reports = table.publish();
    assert_eq!(reports[0].summaries[0].num_of_trades, 1);
    assert_eq!(reports[0].summaries[1].num_of_trades, 2);
    assert_eq!(reports[0].summaries[1].avg_price, Some(200));
}

#[test]
fn sentinel_fields_are_refused() {
    let mut table = SymbolTable::new(vec![1000]);
    let row = FinnhubDataRow::new();
    assert_eq!(table.ingest(&row), Err(IngestError::Incomplete));
    assert_eq!(table.symbol_count(), 0);
    assert!(table.publish().is_empty());
}

#[test]
fn overflowing_trade_is_refused() {
    let mut table = SymbolTable::new(vec![1000]);
    assert_eq!(table.ingest(&trade("A", i64::MAX, 2, 0)), Err(IngestError::Overflow));
    table.ingest(&trade("A", 1, i64::MAX, 0)).unwrap();
    assert_eq!(table.ingest(&trade("A", 1, 1, 1)), Err(IngestError::Overflow));
    assert_eq!(table.symbol_count(), 1);
}

#[test]
fn horizons_are_kept() {
    let table = SymbolTable::new(vec![1000, 10_000, 60_000]);
    assert_eq!(table.horizons(), &vec![1000, 10_000, 60_000]);
}
