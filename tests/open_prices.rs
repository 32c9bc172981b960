use stock_analyser::open_prices::OpenPrices;

#[test]
fn opening_price_is_the_one_of_a_horizon_ago() {
    let mut open = OpenPrices::new(vec![2, 1]);
    let a = "A".to_string();
    assert_eq!(open.record(&a, 0, Some(10)), None);
    open.tick();
    assert_eq!(open.record(&a, 0, Some(20)), None);
    open.tick();
    assert_eq!(open.record(&a, 0, Some(30)), Some(10));
    open.tick();
    assert_eq!(open.record(&a, 0, Some(40)), Some(20));
}

#[test]
fn quiet_ticks_carry_the_last_price() {
    let mut open = OpenPrices::new(vec![1]);
    let b = "B".to_string();
    assert_eq!(open.record(&b, 0, Some(7)), None);
    open.tick();
    open.tick();
    open.tick();
    assert_eq!(open.record(&b, 0, Some(9)), Some(7));
    assert_eq!(open.record(&"C".to_string(), 0, None), None);
}
