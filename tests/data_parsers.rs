use stock_analyser::data_parsers::{parse_eodhd_data, parse_finnhub_data, parse_twelve_data};

#[test]
fn finnhub_message_yields_its_data_list() {
    let msg = "{\"data\":[{\"c\":[\"1\",\"12\"],\"p\":7296.89,\"s\":\"BINANCE:BTCUSDT\",\"t\":1575526691134,\"v\":0.011467},{\"p\":12.5,\"s\":\"AAPL\",\"t\":1575526691200,\"v\":3}],\"type\":\"trade\"}".to_string();
    let rows = parse_finnhub_data(&msg);
    assert_eq!(rows.len(), 2);
    assert_eq!(rows[0].s, "BINANCE:BTCUSDT");
    assert_eq!(rows[0].p, 729689);
    assert_eq!(rows[0].t, 1575526691134);
    assert_eq!(rows[0].v, 0);
    assert_eq!(rows[1].s, "AAPL");
    assert_eq!(rows[1].p, 1250);
    assert_eq!(rows[1].v, 3);
}

#[test]
fn finnhub_message_without_data_yields_nothing() {
    let msg = "{\"type\":\"ping\"}".to_string();
    assert!(parse_finnhub_data(&msg).is_empty());
}

#[test]
fn eodhd_message_is_one_record() {
    let msg = "{\"s\":\"AMZN\",\"p\":186.25,\"c\":[12,37],\"v\":100,\"dp\":false,\"ms\":\"open\",\"t\":1725198451165}".to_string();
    let rows = parse_eodhd_data(&msg);
    assert_eq!(rows.len(), 1);
    assert_eq!(rows[0].s, "AMZN");
    assert_eq!(rows[0].p, 18625);
    assert_eq!(rows[0].v, 100);
    assert_eq!(rows[0].t, 1725198451165);
}

#[test]
fn twelve_message_is_one_record() {
    let msg = "{\"event\":\"price\",\"symbol\":\"AAPL\",\"currency\":\"USD\",\"exchange\":\"NASDAQ\",\"type\":\"Common Stock\",\"timestamp\":1725630476,\"price\":220.81,\"day_volume\":1520394}".to_string();
    let row = parse_twelve_data(&msg);
    assert_eq!(row.s, "AAPL");
    assert_eq!(row.e, "NASDAQ");
    assert_eq!(row.t, 1725630476);
    assert_eq!(row.p, 22081);
    assert_eq!(row.v, 1520394);
}
