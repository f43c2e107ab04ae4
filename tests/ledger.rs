use rustyfolio::date::Date;
use rustyfolio::importer::{
    add_shares, process_espp, process_gl, CsvImporter, ImportError, ImporterService, StatementRow,
};
use rustyfolio::portfolio::{Action, Portfolio, PortfolioError, Positions, Stock};

fn day(y: i32, m: u32, d: u32) -> Date {
    Date::new(y, m, d).unwrap()
}

fn lot(date: Date, unit: u32, price: u32, metadata: &str) -> Stock {
    Stock {
        date,
        price,
        currency: "USD".to_string(),
        unit,
        action: Action::Buy,
        metadata: metadata.to_string(),
    }
}

fn position(ticker: &str, shares: Vec<Stock>) -> Positions {
    Positions { ticker: ticker.to_string(), shares }
}

#[test]
fn new_portfolio_is_empty() {
    let p = Portfolio::new();
    assert_eq!(p.name, "My Portfolio");
    assert_eq!(p.description, "");
    assert!(p.stocks.is_empty());
}

#[test]
fn merge_adds_new_ticker_whole() {
    let mut p = Portfolio::new();
    p.merge_postions(&vec![position("ACME", vec![lot(day(2020, 1, 1), 1, 2, "a")])]);
    assert_eq!(p.stocks.len(), 1);
    assert_eq!(p.stocks[0].ticker, "ACME");
    assert_eq!(p.stocks[0].shares.len(), 1);
}

#[test]
fn merge_skips_known_lot_identity() {
    let mut p = Portfolio::new();
    p.new_stock(position("ACME", vec![lot(day(2020, 1, 1), 1, 2, "a")]));
    let mut same_identity = lot(day(2020, 1, 1), 99, 2, "a");
    same_identity.currency = "EUR".to_string();
    p.merge_postions(&vec![position(
        "ACME",
        vec![same_identity, lot(day(2020, 1, 1), 1, 3, "a"), lot(day(2020, 1, 2), 1, 2, "a")],
    )]);
    assert_eq!(p.stocks.len(), 1);
    let shares = &p.stocks[0].shares;
    assert_eq!(shares.len(), 3);
    assert_eq!(shares[0].unit, 1);
    assert_eq!(shares[0].currency, "USD");
    assert_eq!(shares[1].price, 3);
    assert_eq!(shares[2].date, day(2020, 1, 2));
}

#[test]
fn merge_twice_is_merge_once() {
    let mut p = Portfolio::new();
    p.new_stock(position("ACME", vec![lot(day(2019, 5, 5), 4, 4, "old")]));
    let incoming = vec![
        position("ACME", vec![lot(day(2020, 1, 1), 1, 2, "a"), lot(day(2019, 5, 5), 4, 4, "old")]),
        position("INIT", vec![lot(day(2021, 1, 1), 2, 2, "b")]),
        position("INIT", vec![lot(day(2021, 1, 1), 2, 2, "b"), lot(day(2021, 2, 1), 2, 2, "b")]),
    ];
    p.merge_postions(&incoming);
    let once = p.stocks.clone();
    p.merge_postions(&incoming);
    assert_eq!(p.stocks, once);
    assert_eq!(once.len(), 2);
    assert_eq!(once[0].shares.len(), 2);
    assert_eq!(once[1].shares.len(), 2);
}

#[test]
fn date_new_checks_the_calendar() {
    assert!(Date::new(2020, 2, 29).is_some());
    assert!(Date::new(2021, 2, 29).is_none());
    assert!(Date::new(2021, 13, 1).is_none());
    assert!(Date::new(2021, 4, 31).is_none());
    let d = Date::new(2021, 12, 31).unwrap();
    assert_eq!((d.year, d.month, d.day), (2021, 12, 31));
}

#[test]
fn date_parse_reads_statement_formats() {
    assert_eq!(Date::parse("03/15/2021", "%m/%d/%Y"), Some(day(2021, 3, 15)));
    assert_eq!(Date::parse("15-Mar-2021", "%d-%b-%Y"), Some(day(2021, 3, 15)));
    assert_eq!(Date::parse("2021-03-15", "%m/%d/%Y"), None);
}

#[test]
fn date_order_is_chronological() {
    assert!(day(2021, 12, 31).le(&day(2022, 1, 2)));
    assert!(!day(2022, 1, 2).le(&day(2021, 12, 31)));
    assert!(day(2022, 1, 2).le(&day(2022, 1, 2)));
}

#[test]
fn add_shares_groups_by_ticker() {
    let mut positions = vec![position("ACME", vec![lot(day(2020, 1, 1), 1, 1, "a")])];
    add_shares(&mut positions, &"ACME".to_string(), &vec![lot(day(2020, 1, 2), 1, 1, "b")]);
    add_shares(&mut positions, &"INIT".to_string(), &vec![lot(day(2020, 1, 3), 1, 1, "c")]);
    assert_eq!(positions.len(), 2);
    assert_eq!(positions[0].shares.len(), 2);
    assert_eq!(positions[0].shares[1].metadata, "b");
    assert_eq!(positions[1].ticker, "INIT");
}

fn row(symbol: &str, date: &str, qty: u32, price: u32, meta: Option<&str>) -> StatementRow {
    StatementRow {
        symbol: Some(symbol.to_string()),
        date: Some(date.to_string()),
        quantity: Some(qty),
        price: Some(price),
        metadata: meta.map(|m| m.to_string()),
    }
}

#[test]
fn gains_and_losses_rows_become_sells() {
    let mut positions = vec![];
    let rows = vec![
        row("ACME", "03/15/2021", 5, 120, Some("Sell Restricted Stock")),
        row("ACME", "04/01/2021", 2, 130, Some("Limit")),
    ];
    assert_eq!(process_gl(&rows, &mut positions), Ok(()));
    assert_eq!(positions.len(), 1);
    let s = &positions[0].shares[0];
    assert_eq!(s.action, Action::Sell);
    assert_eq!(s.date, day(2021, 3, 15));
    assert_eq!(s.unit, 5);
    assert_eq!(s.price, 120);
    assert_eq!(s.currency, "USD");
    assert_eq!(s.metadata, "Sell Restricted Stock");
}

#[test]
fn espp_rows_become_buys() {
    let mut positions = vec![];
    let rows = vec![row("ACME", "30-Jun-2020", 7, 99, None)];
    assert_eq!(process_espp(&rows, &mut positions), Ok(()));
    let s = &positions[0].shares[0];
    assert_eq!(s.action, Action::Buy);
    assert_eq!(s.date, day(2020, 6, 30));
    assert_eq!(s.metadata, "ESPP");
}

#[test]
fn malformed_rows_are_rejected() {
    let mut positions = vec![];
    let mut missing = row("ACME", "03/15/2021", 5, 120, Some("Limit"));
    missing.price = None;
    assert_eq!(process_gl(&vec![missing], &mut positions), Err(ImportError::MalformedEvent));
    let bad_date = row("ACME", "2021-03-15", 5, 120, Some("Limit"));
    assert_eq!(process_gl(&vec![bad_date], &mut positions), Err(ImportError::MalformedEvent));
    let no_order_type = row("ACME", "03/15/2021", 5, 120, None);
    assert_eq!(process_gl(&vec![no_order_type], &mut positions), Err(ImportError::MalformedEvent));
}

#[test]
fn csv_importer_reports_unsupported_format() {
    let mut service = ImporterService::new_importer(CsvImporter::new()).unwrap();
    let r = service.run(vec!["custom.csv".to_string()]);
    assert_eq!(r, Err(ImportError::UnsupportedFormat));
    assert_eq!(CsvImporter::import_csv(&"custom.csv".to_string()), Ok(()));
}

#[test]
fn from_positions_rejects_duplicate_tickers() {
    let dup = vec![position("ACME", vec![]), position("INIT", vec![]), position("ACME", vec![])];
    let r = Portfolio::from_positions("p".to_string(), "d".to_string(), dup);
    assert_eq!(r.err(), Some(PortfolioError::DuplicateTicker));
    let ok = vec![position("ACME", vec![]), position("INIT", vec![])];
    let p = Portfolio::from_positions("p".to_string(), "d".to_string(), ok).unwrap();
    assert_eq!(p.stocks.len(), 2);
    assert_eq!(p.name, "p");
}

#[test]
fn failed_statement_keeps_rows_before_the_bad_one() {
    let mut positions = vec![];
    let mut bad = row("INIT", "03/16/2021", 1, 10, Some("Limit"));
    bad.symbol = None;
    let rows = vec![
        row("ACME", "03/15/2021", 5, 120, Some("Limit")),
        bad,
        row("ZED", "03/17/2021", 1, 10, Some("Limit")),
    ];
    assert_eq!(process_gl(&rows, &mut positions), Err(ImportError::MalformedEvent));
    assert_eq!(positions.len(), 1);
    assert_eq!(positions[0].ticker, "ACME");
}

#[test]
fn merge_keeps_lot_identities_distinct() {
    let mut p = Portfolio::new();
    p.new_stock(position("ACME", vec![lot(day(2020, 1, 1), 1, 2, "a")]));
    p.merge_postions(&vec![position(
        "ACME",
        vec![lot(day(2020, 1, 1), 5, 2, "a"), lot(day(2020, 1, 1), 1, 2, "b"), lot(day(2020, 1, 1), 3, 2, "b")],
    )]);
    let shares = &p.stocks[0].shares;
    assert_eq!(shares.len(), 2);
    assert_eq!(shares[1].metadata, "b");
    assert_eq!(shares[1].unit, 1);
}
