use stock_analyser::data_parsers::parse_alpaca_data;

#[test]
fn parse_alpaca_data_test() {
    let input = "[{\"T\":\"t\",\"S\":\"TSM\",\"i\":55397666350414,\"x\":\"V\",\"p\":156.97,\"s\":100,\"c\":[\" \"],\"z\":\"A\",\"t\":\"2024-09-06T15:27:56.438925312Z\"}]".to_string();

    let data_row = parse_alpaca_data(&input);

    println!("{:?}", data_row);

    assert_eq!(data_row.len(), 1);
    assert_eq!(data_row[0].s, "TSM");
    assert_eq!(data_row[0].p, 15697);
    assert_eq!(data_row[0].v, 100);
    assert_eq!(data_row[0].t, 1725636476438);
    assert_eq!(data_row[0].c, -1);
}

#[test]
fn alpaca_records_split_at_the_outer_list() {
    let input = "[{\"S\":\"A\",\"p\":1.5,\"s\":2},{\"S\":\"B\",\"p\":3,\"s\":4}]".to_string();
    let rows = parse_alpaca_data(&input);
    assert_eq!(rows.len(), 2);
    assert_eq!(rows[0].s, "A");
    assert_eq!(rows[0].p, 150);
    assert_eq!(rows[0].v, 2);
    assert_eq!(rows[1].s, "B");
    assert_eq!(rows[1].p, 300);
    assert_eq!(rows[1].v, 4);
}

#[test]
fn alpaca_unreadable_time_keeps_the_sentinel() {
    let input = "[{\"S\":\"A\",\"t\":\"yesterday\"}]".to_string();
    let rows = parse_alpaca_data(&input);
    assert_eq!(rows.len(), 1);
    assert_eq!(rows[0].t, 0);
}
