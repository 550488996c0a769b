//! Personal investment tax-reporting core.
//!
//! The library normalizes brokerage activities into a currency-aware,
//! chronologically ordered log, converts foreign cash flows into the
//! domestic currency (PLN) through historical daily exchange rates, and
//! computes FIFO-based realized gains and dividend tax per calendar year.
//!
//! Monetary values are fixed-point decimals held in scaled integers:
//! amounts carry two decimal places, quantities and exchange rates four.
//! Reading broker files, querying the rate source and printing reports
//! are left to the surrounding application; this crate holds the rules.

pub mod activity;
pub mod compute;
pub mod currency;
pub mod date;
pub mod fixed;
pub mod interactive_brokers;
pub mod nbp;
pub mod tax;
