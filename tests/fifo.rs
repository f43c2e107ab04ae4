use rustyfolio::date::Date;
use rustyfolio::portfolio::{Action, Portfolio, Positions, Stock};
use rustyfolio::tax::{FifoError, TaxCalculatorService, TickerReport};

fn day(y: i32, m: u32, d: u32) -> Date {
    Date::new(y, m, d).unwrap()
}

fn lot(date: Date, unit: u32, price: u32, currency: &str, action: Action, metadata: &str) -> Stock {
    Stock {
        date,
        price,
        currency: currency.to_string(),
        unit,
        action,
        metadata: metadata.to_string(),
    }
}

fn buy(date: Date, unit: u32, price: u32) -> Stock {
    lot(date, unit, price, "USD", Action::Buy, "ESPP")
}

fn sell(date: Date, unit: u32, price: u32) -> Stock {
    lot(date, unit, price, "USD", Action::Sell, "Market")
}

fn run(shares: Vec<Stock>) -> Result<TickerReport, FifoError> {
    TaxCalculatorService::fifo_ticker(&Positions { ticker: "ACME".to_string(), shares })
}

#[test]
fn fifo_consumes_oldest_lot_first() {
    let report = run(vec![
        buy(day(2021, 1, 1), 10, 8),
        sell(day(2022, 1, 1), 15, 10),
        buy(day(2020, 1, 1), 10, 5),
    ])
    .unwrap();
    assert_eq!(report.records.len(), 2);
    let first = &report.records[0];
    assert_eq!(first.units_sold, 10);
    assert_eq!(first.buy_price, 5);
    assert_eq!(first.sell_price, 10);
    assert_eq!(first.gain_per_unit, 5);
    assert_eq!(first.realized_amount, 50);
    let second = &report.records[1];
    assert_eq!(second.units_sold, 5);
    assert_eq!(second.buy_price, 8);
    assert_eq!(second.gain_per_unit, 2);
    assert_eq!(second.realized_amount, 10);
    assert_eq!(second.ticker, "ACME");
    assert_eq!(second.currency, "USD");
    assert_eq!(second.sell_metadata, "Market");
    assert_eq!(second.sell_date, day(2022, 1, 1));
}

#[test]
fn fifo_conserves_units() {
    let report = run(vec![
        buy(day(2020, 1, 1), 10, 5),
        buy(day(2021, 1, 1), 10, 8),
        sell(day(2022, 1, 1), 15, 10),
    ])
    .unwrap();
    let sold: u32 = report.records.iter().map(|r| r.units_sold).sum();
    let left: u32 = report.open_lots.iter().map(|s| s.unit).sum();
    assert_eq!(sold, 15);
    assert_eq!(left, 5);
    assert_eq!(report.open_lots.len(), 1);
    assert_eq!(report.open_lots[0].price, 8);
    assert_eq!(report.open_lots[0].date, day(2021, 1, 1));
}

#[test]
fn fifo_all_lots_consumed_leaves_nothing() {
    let report = run(vec![buy(day(2020, 1, 1), 7, 5), sell(day(2020, 6, 1), 7, 4)]).unwrap();
    assert_eq!(report.open_lots.len(), 0);
    assert_eq!(report.records.len(), 1);
    assert_eq!(report.records[0].realized_amount, -7);
    assert_eq!(report.years.len(), 1);
    assert_eq!(report.years[0].total_gain, 0);
    assert_eq!(report.years[0].total_loss, 7);
}

#[test]
fn fifo_year_buckets_close_at_year_change() {
    let report = run(vec![
        buy(day(2020, 1, 1), 100, 10),
        sell(day(2022, 1, 2), 5, 20),
        sell(day(2021, 12, 31), 3, 12),
    ])
    .unwrap();
    assert_eq!(report.years.len(), 2);
    assert_eq!(report.years[0].year, 2021);
    assert_eq!(report.years[0].total_units_sold, 3);
    assert_eq!(report.years[0].total_gain, 6);
    assert_eq!(report.years[0].total_loss, 0);
    assert_eq!(report.years[1].year, 2022);
    assert_eq!(report.years[1].total_units_sold, 5);
    assert_eq!(report.years[1].total_gain, 50);
    assert_eq!(report.records[0].sell_date, day(2021, 12, 31));
}

#[test]
fn fifo_year_nets_gains_and_losses() {
    let report = run(vec![
        buy(day(2020, 1, 1), 4, 10),
        buy(day(2020, 2, 1), 4, 30),
        sell(day(2021, 3, 1), 8, 20),
    ])
    .unwrap();
    assert_eq!(report.years.len(), 1);
    assert_eq!(report.years[0].total_units_sold, 8);
    assert_eq!(report.years[0].total_gain, 40);
    assert_eq!(report.years[0].total_loss, 40);
}

#[test]
fn fifo_insufficient_lots() {
    let r = run(vec![buy(day(2020, 1, 1), 10, 5), sell(day(2021, 1, 1), 11, 6)]);
    assert_eq!(r, Err(FifoError::InsufficientLots));
}

#[test]
fn fifo_sell_without_any_buy() {
    let r = run(vec![sell(day(2021, 1, 1), 1, 6)]);
    assert_eq!(r, Err(FifoError::InsufficientLots));
}

#[test]
fn fifo_currency_mismatch() {
    let r = run(vec![
        lot(day(2020, 1, 1), 10, 5, "USD", Action::Buy, "ESPP"),
        lot(day(2021, 1, 1), 5, 6, "EUR", Action::Sell, "Market"),
    ]);
    assert_eq!(r, Err(FifoError::UnsupportedCurrencyConversion));
}

#[test]
fn fifo_same_date_lots_keep_import_order() {
    let report = run(vec![
        lot(day(2020, 1, 1), 2, 7, "USD", Action::Buy, "first"),
        lot(day(2020, 1, 1), 2, 9, "USD", Action::Buy, "second"),
        sell(day(2021, 1, 1), 3, 10),
    ])
    .unwrap();
    assert_eq!(report.records.len(), 2);
    assert_eq!(report.records[0].buy_price, 7);
    assert_eq!(report.records[0].units_sold, 2);
    assert_eq!(report.records[1].buy_price, 9);
    assert_eq!(report.records[1].units_sold, 1);
    assert_eq!(report.open_lots[0].metadata, "second");
    assert_eq!(report.open_lots[0].unit, 1);
}

#[test]
fn fifo_zero_quantity_sell_opens_its_year() {
    let report = run(vec![buy(day(2020, 1, 1), 2, 7), sell(day(2021, 1, 1), 0, 10)]).unwrap();
    assert_eq!(report.records.len(), 0);
    assert_eq!(report.years.len(), 1);
    assert_eq!(report.years[0].year, 2021);
    assert_eq!(report.years[0].total_units_sold, 0);
    assert_eq!(report.years[0].total_gain, 0);
    assert_eq!(report.years[0].total_loss, 0);
    assert_eq!(report.open_lots.len(), 1);
}

#[test]
fn fifo_only_zero_quantity_sale_of_a_year() {
    let report = run(vec![
        buy(day(2020, 1, 1), 5, 1),
        sell(day(2021, 6, 1), 2, 3),
        sell(day(2022, 6, 1), 0, 3),
        sell(day(2023, 6, 1), 1, 2),
    ])
    .unwrap();
    let years: Vec<i32> = report.years.iter().map(|y| y.year).collect();
    assert_eq!(years, vec![2021, 2022, 2023]);
    assert_eq!(report.years[0].total_gain, 4);
    assert_eq!(report.years[1].total_units_sold, 0);
    assert_eq!(report.years[2].total_gain, 1);
}

#[test]
fn fifo_large_amounts_do_not_overflow() {
    let report = run(vec![
        buy(day(2020, 1, 1), u32::MAX, 0),
        sell(day(2021, 1, 1), u32::MAX, u32::MAX),
    ])
    .unwrap();
    let expected = (u32::MAX as i128) * (u32::MAX as i128);
    assert_eq!(report.records[0].realized_amount, expected);
    assert_eq!(report.years[0].total_gain, expected as u128);
}

#[test]
fn fifo_calculation_isolates_tickers() {
    let mut portfolio = Portfolio::new();
    portfolio.stocks.push(Positions {
        ticker: "BAD".to_string(),
        shares: vec![sell(day(2021, 1, 1), 1, 1)],
    });
    portfolio.stocks.push(Positions {
        ticker: "GOOD".to_string(),
        shares: vec![buy(day(2020, 1, 1), 1, 1), sell(day(2021, 1, 1), 1, 3)],
    });
    let results = TaxCalculatorService::fifo_calculation(&portfolio);
    assert_eq!(results.len(), 2);
    assert_eq!(results[0], Err(FifoError::InsufficientLots));
    let good = results[1].as_ref().unwrap();
    assert_eq!(good.ticker, "GOOD");
    assert_eq!(good.records[0].realized_amount, 2);
}

#[test]
fn fifo_leaves_ledger_untouched() {
    let mut portfolio = Portfolio::new();
    portfolio.stocks.push(Positions {
        ticker: "ACME".to_string(),
        shares: vec![buy(day(2020, 1, 1), 10, 1), sell(day(2021, 1, 1), 4, 3)],
    });
    let before = portfolio.stocks.clone();
    let _ = TaxCalculatorService::fifo_calculation(&portfolio);
    assert_eq!(portfolio.stocks, before);
}

#[test]
fn fifo_empty_lot_yields_zero_unit_record() {
    let report = run(vec![
        buy(day(2020, 1, 1), 0, 3),
        buy(day(2020, 2, 1), 5, 4),
        sell(day(2021, 1, 1), 2, 6),
    ])
    .unwrap();
    assert_eq!(report.records.len(), 2);
    assert_eq!(report.records[0].units_sold, 0);
    assert_eq!(report.records[0].realized_amount, 0);
    assert_eq!(report.records[1].units_sold, 2);
    assert_eq!(report.records[1].realized_amount, 4);
    assert_eq!(report.open_lots.len(), 1);
    assert_eq!(report.open_lots[0].unit, 3);
}

#[test]
fn fifo_without_sales_keeps_lots_in_date_order() {
    let report = run(vec![buy(day(2021, 5, 1), 1, 2), buy(day(2020, 5, 1), 1, 1)]).unwrap();
    assert!(report.records.is_empty());
    assert_eq!(report.open_lots[0].date, day(2020, 5, 1));
    assert_eq!(report.open_lots[1].date, day(2021, 5, 1));
}
