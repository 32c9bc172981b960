use stock_analyser::data_web_client::{after_send, DataWebClient, SendAction};
use stock_analyser::finnhub_data_row::FinnhubDataRow;
use stock_analyser::trade_web_server::{TradeWebServer, MAX_QUEUED_TRADES};

#[test]
fn trade_queue_keeps_order_and_drops_the_oldest() {
    let mut server = TradeWebServer::new("localhost:9010");
    assert_eq!(server.ip_server(), "localhost:9010");
    for i in 0..(MAX_QUEUED_TRADES as i64 + 3) {
        let mut row = FinnhubDataRow::new();
        row.t = i;
        server.add_trade(row);
    }
    assert_eq!(server.pop_update().unwrap().t, 2);
    let mut back = FinnhubDataRow::new();
    back.t = 99;
    server.requeue(back);
    assert_eq!(server.pop_update().unwrap().t, 99);
    assert_eq!(server.pop_update().unwrap().t, 3);
}

#[test]
fn message_queue_is_first_in_first_out() {
    let mut client = DataWebClient::new("ws://localhost:9003");
    assert_eq!(client.addr(), "ws://localhost:9003");
    assert_eq!(client.pop_update(), None);
    client.add_finnhub_data(vec!["a".to_string(), "b".to_string()]);
    assert_eq!(client.pop_update(), Some("a".to_string()));
    client.requeue("x".to_string());
    assert_eq!(client.pop_update(), Some("x".to_string()));
    assert_eq!(client.pop_update(), Some("b".to_string()));
}

#[test]
fn failed_sends_back_off_then_drop() {
    assert_eq!(after_send(0, true), SendAction::Done);
    assert_eq!(after_send(0, false), SendAction::RetryAfter(200));
    assert_eq!(after_send(3, false), SendAction::RetryAfter(1600));
    assert_eq!(after_send(4, false), SendAction::Drop);
}
