use stock_analyser::finnhub_data_row::FinnhubDataRow;
use stock_analyser::stock_interval::StockInformation;

fn trade(symbol: &str, price: i64, volume: i64, time: i64) -> FinnhubDataRow {
    FinnhubDataRow { c: 0, p: price, s: symbol.to_string(), e: String::new(), t: time, v: volume }
}

#[test]
fn three_trades_in_a_one_second_window() {
    let mut w = StockInformation::new(1000);
    w.add_trade(&trade("AAPL", 10000, 5, 0));
    w.add_trade(&trade("AAPL", 10100, 3, 500));
    w.add_trade(&trade("AAPL", 9900, 2, 1200));
    let s = w.snapshot();
    assert_eq!(s.timestamp, 1200);
    assert_eq!(s.num_of_trades, 2);
    assert_eq!(s.volume_moved, 5);
    assert_eq!(s.min_price, Some(9900));
    assert_eq!(s.max_price, Some(10100));
    assert_eq!(s.avg_price, Some(10020));
    assert_eq!(s.avg_trade_price, Some(10000));
}

#[test]
fn empty_window_reports_no_data() {
    let w = StockInformation::new(1000);
    let s = w.snapshot();
    assert_eq!(s.avg_price, None);
    assert_eq!(s.avg_trade_price, None);
    assert_eq!(s.min_price, None);
    assert_eq!(s.max_price, None);
    assert_eq!(s.volume_moved, 0);
    assert_eq!(s.num_of_trades, 0);
    assert_eq!(w.percentile(50), None);
}

#[test]
fn window_keeps_exactly_the_recent_trades() {
    let mut w = StockInformation::new(100);
    for (i, t) in [0i64, 50, 100, 150, 220, 230].iter().enumerate() {
        w.add_trade(&trade("X", 100 + i as i64, 1, *t));
    }
    let s = w.snapshot();
    // latest time 230: trades at 150, 220 and 230 are within 100 ms
    assert_eq!(s.num_of_trades, 3);
    assert_eq!(s.volume_moved, 3);
    assert_eq!(s.min_price, Some(103));
}

#[test]
fn late_trade_does_not_move_the_latest_time() {
    let mut w = StockInformation::new(100);
    w.add_trade(&trade("X", 10, 1, 1000));
    w.add_trade(&trade("X", 20, 1, 500));
    let s = w.snapshot();
    assert_eq!(s.timestamp, 1000);
    assert_eq!(s.num_of_trades, 2);
}

#[test]
fn rank_gap_is_the_volume_at_a_price() {
    let mut w = StockInformation::new(10_000);
    w.add_trade(&trade("X", 300, 4, 1));
    w.add_trade(&trade("X", 200, 6, 2));
    w.add_trade(&trade("X", 300, 5, 3));
    let (below, up_to) = w.fenwick_tree().find_num(300);
    assert_eq!(below, 6);
    assert_eq!(up_to - below, 9);
}

#[test]
fn extremes_follow_evictions() {
    let mut w = StockInformation::new(10);
    w.add_trade(&trade("X", 1, 1, 0));
    w.add_trade(&trade("X", 50, 1, 5));
    w.add_trade(&trade("X", 20, 1, 12));
    let s = w.snapshot();
    assert_eq!(s.min_price, Some(20));
    assert_eq!(s.max_price, Some(50));
}

#[test]
fn zero_volume_trades_hold_no_price() {
    let mut w = StockInformation::new(1000);
    w.add_trade(&trade("X", 5, 0, 1));
    let s = w.snapshot();
    assert_eq!(s.num_of_trades, 1);
    assert_eq!(s.min_price, None);
    assert_eq!(s.avg_price, None);
    assert_eq!(s.avg_trade_price, Some(5));
}

#[test]
fn percentiles_of_the_volume() {
    let mut w = StockInformation::new(1000);
    w.add_trade(&trade("X", 100, 1, 1));
    w.add_trade(&trade("X", 200, 2, 2));
    w.add_trade(&trade("X", 300, 1, 3));
    assert_eq!(w.percentile(0), Some(100));
    assert_eq!(w.percentile(50), Some(200));
    assert_eq!(w.percentile(100), Some(300));
}

#[test]
fn can_add_refuses_an_overflowing_trade() {
    let w = StockInformation::new(1000);
    assert!(w.can_add(&trade("X", 2, 3, 0)));
    assert!(!w.can_add(&trade("X", i64::MAX, 2, 0)));
}
