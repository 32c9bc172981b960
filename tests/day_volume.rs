use stock_analyser::day_volume::DayVolumes;

fn msg(symbol: &str, time: i64, day_volume: i64) -> String {
    format!(
        "{{\"event\":\"price\",\"symbol\":\"{}\",\"timestamp\":{},\"price\":1.25,\"day_volume\":{}}}",
        symbol, time, day_volume
    )
}

#[test]
fn day_volume_becomes_trade_volume() {
    let mut dv = DayVolumes::new();
    assert_eq!(dv.twelve_trade(&msg("AAPL", 10, 100)).unwrap().v, 0);
    assert_eq!(dv.twelve_trade(&msg("AAPL", 11, 130)).unwrap().v, 30);
    assert_eq!(dv.twelve_trade(&msg("MSFT", 11, 7)).unwrap().v, 0);
    assert_eq!(dv.twelve_trade(&msg("AAPL", 12, 20)).unwrap().v, 20);
    let row = dv.twelve_trade(&msg("AAPL", 13, 25)).unwrap();
    assert_eq!(row.v, 5);
    assert_eq!(row.p, 125);
    assert_eq!(row.s, "AAPL");
}

#[test]
fn message_without_time_holds_no_trade() {
    let mut dv = DayVolumes::new();
    let m = "{\"event\":\"subscribe-status\",\"status\":\"ok\"}".to_string();
    assert!(dv.twelve_trade(&m).is_none());
}
