//! Equity holdings ledger: merging imported lot events into a portfolio and
//! matching disposals against acquisitions first-in-first-out, per tax year.
//!
//! Prices and quantities are fixed-point integers whose scales the caller
//! chooses (for instance cents and thousandths of a share); a realized amount
//! is then a price unit times a quantity unit.

pub mod date;
pub mod portfolio;
pub mod tax;
pub mod importer;
