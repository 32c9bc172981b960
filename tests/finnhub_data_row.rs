use stock_analyser::finnhub_data_row::FinnhubDataRow;
use stock_analyser::text::{parse_cents, parse_int, parse_whole, text_is};

fn s(t: &str) -> String {
    t.to_string()
}

#[test]
fn new_row_holds_sentinels() {
    let r = FinnhubDataRow::new();
    assert_eq!((r.c, r.p, r.t, r.v), (-1, -1, 0, -1));
    assert!(r.s.is_empty() && r.e.is_empty());
}

#[test]
fn finnhub_fields_are_read() {
    let mut r = FinnhubDataRow::new();
    r.set_data(&s("p"), &s("101.5"));
    r.set_data(&s("s"), &s("AAPL"));
    r.set_data(&s("t"), &s("1700000000000"));
    r.set_data(&s("v"), &s("12.9"));
    r.set_data(&s("x"), &s("ignored"));
    assert_eq!(*r.get_price(), 10150);
    assert_eq!(r.get_stockname(), "AAPL");
    assert_eq!(*r.get_time(), 1700000000000);
    assert_eq!(*r.get_volume(), 12);
    assert_eq!(*r.get_conditions(), -1);
}

#[test]
fn unparsable_fields_keep_their_value() {
    let mut r = FinnhubDataRow::new();
    r.set_data(&s("p"), &s("abc"));
    r.set_data(&s("t"), &s("12x"));
    r.set_data(&s("v"), &s(""));
    assert_eq!((r.p, r.t, r.v), (-1, 0, -1));
}

#[test]
fn condition_codes_become_bits() {
    let mut r = FinnhubDataRow::new();
    r.set_data(&s("c"), &s("1,3"));
    assert_eq!(r.c, 0b1010);
    r.set_data(&s("c"), &s("2,,5"));
    assert_eq!(r.c, 0b100);
    r.set_data(&s("c"), &s("64,x,0"));
    assert_eq!(r.c, 1);
    r.set_data(&s("c"), &s(""));
    assert_eq!(r.c, 0);
}

#[test]
fn alpaca_fields_are_read() {
    let mut r = FinnhubDataRow::new();
    r.set_alpaca_data(&s("S"), &s("TSM"));
    r.set_alpaca_data(&s("s"), &s("100"));
    r.set_alpaca_data(&s("t"), &s("1970-01-01T00:00:01.5Z"));
    assert_eq!(r.s, "TSM");
    assert_eq!(r.v, 100);
    assert_eq!(r.t, 1500);
}

#[test]
fn twelve_fields_are_read() {
    let mut r = FinnhubDataRow::new();
    r.set_twelve_data(&s("price"), &s("3.07"));
    r.set_twelve_data(&s("exchange"), &s("NYSE"));
    r.set_twelve_data(&s("day_volume"), &s("5"));
    r.set_twelve_data(&s("timestamp"), &s("42"));
    assert_eq!((r.p, r.v, r.t), (307, 5, 42));
    assert_eq!(r.e, "NYSE");
}

#[test]
fn integers_read_as_std_does() {
    assert_eq!(parse_int(&s("-42")), Some(-42));
    assert_eq!(parse_int(&s("+7")), Some(7));
    assert_eq!(parse_int(&s("9223372036854775807")), Some(i64::MAX));
    assert_eq!(parse_int(&s("-9223372036854775808")), Some(i64::MIN));
    assert_eq!(parse_int(&s("9223372036854775808")), None);
    assert_eq!(parse_int(&s("")), None);
    assert_eq!(parse_int(&s("-")), None);
    assert_eq!(parse_int(&s("1.0")), None);
}

#[test]
fn decimals_read_in_cents_and_whole_units() {
    assert_eq!(parse_cents(&s("156.97")), Some(15697));
    assert_eq!(parse_cents(&s("0.019")), Some(1));
    assert_eq!(parse_cents(&s("-2.5")), Some(-250));
    assert_eq!(parse_cents(&s(".5")), Some(50));
    assert_eq!(parse_cents(&s("7.")), Some(700));
    assert_eq!(parse_cents(&s(".")), None);
    assert_eq!(parse_cents(&s("1.2.3")), None);
    assert_eq!(parse_cents(&s("92233720368547758.08")), None);
    assert_eq!(parse_whole(&s("12.99")), Some(12));
    assert_eq!(parse_whole(&s("-0.5")), Some(0));
    assert_eq!(parse_whole(&s("1e5")), None);
}

#[test]
fn text_comparison() {
    assert!(text_is(&s("price"), "price"));
    assert!(!text_is(&s("price"), "pric"));
    assert!(!text_is(&s("Price"), "price"));
}
