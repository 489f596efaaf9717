//! Personal finance records: a tolerant reader for semicolon-delimited
//! transaction files, and exact spending summaries by category, by month and
//! by category within each month.
//!
//! A file holds one record per line, without a header row, four fields each:
//! `description;date;category;amount`. The date is an RFC 3339 timestamp and is
//! kept as its civil date and time in UTC; the amount is a decimal numeral and
//! is kept as an exact count of hundredths, so that totals are exact sums.
//!
//! [`parse`] takes the bytes of a file; opening and reading the file is the
//! caller's part. The summaries are [`Totals`] and [`Breakdown`]: totals under
//! distinct keys, in the order in which the keys first occur.

pub mod amount;
pub mod breakdown;
pub mod grouping;
pub mod laws;
pub mod reader;
pub mod spending;
pub mod text;
pub mod timestamp;
pub mod totals;
pub mod transaction;

pub use breakdown::Breakdown;
pub use grouping::Grouping;
pub use reader::{parse, parse_strict, Malformed};
pub use spending::{
    spending_by, spending_month_average, spending_per_category, spending_per_month,
    spending_per_month_per_category,
};
pub use timestamp::Timestamp;
pub use totals::Totals;
pub use transaction::Transaction;
