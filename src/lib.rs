//! Rolling-window trade statistics per traded symbol.
//!
//! Trades parsed from market-data feeds (`data_parsers`, `finnhub_data_row`) go into a
//! `symbol_table::SymbolTable`, which keeps for every symbol one
//! `stock_interval::StockInformation` per configured horizon. Each of those holds the
//! trades of its retention window, running sums over them, and a
//! `fenwick_tree::FenwickTree` of their prices weighted by volume for rank, minimum,
//! maximum and percentile queries. A publication tick takes the symbols marked dirty
//! since the previous one and reports their windows.
//!
//! The table's operations take `&mut self`: a service that ingests from several threads
//! shares it behind one lock, so that creating a symbol on first sight and handing over
//! the dirty list each happen in one critical section.
pub mod credentials_reader;
pub mod credentials_store;
pub mod data_parsers;
pub mod data_web_client;
pub mod day_volume;
pub mod fenwick_tree;
pub mod finnhub_data_row;
pub mod http_request;
pub mod open_prices;
pub mod stock_config_reader;
pub mod stock_interval;
pub mod symbol_table;
pub mod text;
pub mod trade_web_server;
