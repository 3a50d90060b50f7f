use vstd::prelude::*;

verus! {

/// A calendar date held as plain year, month and day numbers.
///
/// The engine never computes with time zones or day arithmetic; it only
/// reads the components, so a date is modelled by its three fields together
/// with the well-formedness condition below.
#[derive(Clone, Copy, Debug, PartialEq, Eq, Structural)]
pub struct Date {
    pub year: u32,
    pub month: u32,
    pub day: u32,
}

impl Date {
    /// A well-formed calendar date: the month and day numbers are in range.
    pub open spec fn wf(self) -> bool {
        &&& 1 <= self.month <= 12
        &&& 1 <= self.day <= 31
        &&& self.year <= 9999
    }

    pub fn new(year: u32, month: u32, day: u32) -> (d: Date)
        requires
            1 <= month <= 12,
            1 <= day <= 31,
            year <= 9999,
        ensures
            d == (Date { year, month, day }),
            d.wf(),
    {
        Date { year, month, day }
    }
}

/// One input record: an immutable transaction row.
///
/// `value` is a non-negative integral monetary amount and
/// `transaction_count` the number of raw transactions the row stands for.
pub struct Transaction {
    pub date: Date,
    pub domain: String,
    pub location: String,
    pub value: u64,
    pub transaction_count: u32,
}

impl Clone for Transaction {
    fn clone(&self) -> (r: Self)
        ensures
            r == *self,
    {
        let r = Transaction {
            date: self.date,
            domain: self.domain.clone(),
            location: self.location.clone(),
            value: self.value,
            transaction_count: self.transaction_count,
        };
        r
    }
}

/// An exact rational number `num / den`.
///
/// Averages and medians of integer data are always ratios of integers, so
/// the engine reports them exactly instead of rounding them to a float.
/// A presentation layer may divide the two fields if it wants a decimal.
#[derive(Clone, Copy, Debug, PartialEq, Eq, Structural)]
pub struct Ratio {
    pub num: u128,
    pub den: u128,
}

/// Per-region statistics: one row of the region table.
pub struct RegionStats {
    pub region: String,
    pub total: u64,
    pub average: Ratio,
    pub median: Ratio,
    pub count: usize,
}

/// Per-month statistics: one row of the month table.
///
/// `month` holds the bucket key: a month number 1..=12 when bucketing by
/// month alone, or `year * 100 + month` when bucketing by year and month.
pub struct MonthStats {
    pub month: u32,
    pub value: u64,
    pub transaction_count: u32,
    pub average: Ratio,
    pub median: Ratio,
    pub count: usize,
}

/// Per-day statistics: one row of the date table.
pub struct DateStats {
    pub date: Date,
    pub total: u64,
    pub transaction_count: u32,
    pub average: Ratio,
    pub median: Ratio,
    pub count: usize,
}

/// Per-category statistics: one row of the domain table.
pub struct DomainStats {
    pub domain: String,
    pub total: u64,
    pub transaction_count: u32,
    pub average: Ratio,
    pub median: Ratio,
    pub count: usize,
}

/// The one reportable failure of the numeric primitives: an empty input
/// sequence, on which a median or percentile is undefined.
#[derive(Clone, Copy, Debug, PartialEq, Eq, Structural)]
pub enum StatsError {
    EmptyInput,
}

} // verus!
