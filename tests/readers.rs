use stock_analyser::credentials_reader::{CredentialsError, CredentialsReader};
use stock_analyser::credentials_store::CredentialsStore;
use stock_analyser::http_request::split_string_into_pairs;
use stock_analyser::stock_config_reader::StockConfigReader;

fn chars(t: &str) -> Vec<char> {
    t.chars().collect()
}

#[test]
fn config_lists_one_symbol_per_line() {
    let reader = StockConfigReader::new();
    assert_eq!(reader.file(), "Stocklist.txt");
    let list = reader.read_config(&chars("AAPL\r\n MSFT \n\n\tTSLA"));
    assert_eq!(list, vec!["AAPL".to_string(), "MSFT".to_string(), "TSLA".to_string()]);
    assert!(reader.read_config(&chars("")).is_empty());
}

#[test]
fn credentials_are_read_by_dotted_path() {
    let reader = CredentialsReader::new("keys.xml".to_string());
    assert_eq!(reader.file(), "keys.xml");
    let text = "<keys>\n  <Finnhub.io>abc 123</Finnhub.io>\n  <twelvedata.com>xyz</twelvedata.com>\n</keys>";
    let pairs = reader.get_credentials(&chars(text)).unwrap();
    assert_eq!(pairs.len(), 3);
    assert_eq!(pairs[0], ("keys.Finnhub.io".to_string(), "abc123".to_string()));
    assert_eq!(pairs[1], ("keys.twelvedata.com".to_string(), "xyz".to_string()));
    assert_eq!(pairs[2].0, "keys");
}

#[test]
fn malformed_credentials_are_refused() {
    let reader = CredentialsReader::new("keys.xml".to_string());
    assert_eq!(reader.get_credentials(&chars("<a>x</a><")), Err(CredentialsError::OpenAtEnd));
    assert_eq!(reader.get_credentials(&chars("</a>")), Err(CredentialsError::UnmatchedClose(0)));
    assert_eq!(reader.get_credentials(&chars("<a>x\n</b>")), Err(CredentialsError::Mismatch(1)));
    assert_eq!(reader.get_credentials(&chars("x>")), Err(CredentialsError::StrayClose(0)));
}

#[test]
fn store_returns_the_latest_token() {
    let mut store = CredentialsStore::new();
    assert!(!store.has_token("a"));
    store.insert_values_into_map(&vec![
        ("a".to_string(), "1".to_string()),
        ("b".to_string(), "2".to_string()),
        ("a".to_string(), "3".to_string()),
    ]);
    assert!(store.has_token("a"));
    assert_eq!(store.get_token("a"), "3");
    assert_eq!(store.get_token("b"), "2");
    assert!(!store.has_token("c"));
}

#[test]
fn header_lines_split_at_the_first_colon() {
    assert_eq!(
        split_string_into_pairs(&"Host: localhost:7878".to_string()),
        ("Host".to_string(), " localhost:7878".to_string())
    );
    assert_eq!(
        split_string_into_pairs(&"GET / HTTP/1.1".to_string()),
        ("HEAD_REQUEST:".to_string(), "GET / HTTP/1.1".to_string())
    );
}
