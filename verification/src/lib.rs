//! An aggregation and anomaly-detection engine for a ledger of bank
//! transactions: descriptive statistics (totals, counts, exact averages and
//! medians) grouped by region, domain, calendar month or calendar day, and an
//! interquartile-range outlier detector over the whole dataset.
//!
//! The engine is pure: every call works on an in-memory collection of plain
//! records and returns fresh, fully computed tables.  Reading records in and
//! presenting the tables belong to the callers.

pub mod grouping;
pub mod models;
pub mod outliers;
pub mod seq_math;
pub mod stats;
pub mod text;
