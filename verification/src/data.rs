use vstd::prelude::*;

verus! {

/// A calendar date held as plain year / month / day numbers.
///
/// Legs on an invoice are compared by date only for equality and for the day
/// of the week, so the date is kept as its three printed components.
#[derive(Clone, Copy, PartialEq, Eq, Structural, Debug)]
pub struct Date {
    pub year: u16,
    pub month: u8,
    pub day: u8,
}

impl Date {
    /// Number of days since the reference day 0000-03-01 of the proleptic
    /// Gregorian calendar, shifted by a whole number of 400-year cycles so
    /// that the value is non-negative for every representable date.
    ///
    /// A 400-year cycle is exactly 146097 days, a whole number of weeks, so
    /// the shift leaves every day-of-week computation unchanged.
    pub open spec fn spec_day_index(self) -> int {
        let y: int = if self.month <= 2 {
            self.year + 399
        } else {
            self.year + 400
        };
        let m: int = if self.month <= 2 {
            self.month + 9
        } else {
            self.month - 3
        };
        let era: int = y / 400;
        let yoe: int = y % 400;
        let doy: int = (153 * m + 2) / 5 + self.day;
        let doe: int = yoe * 365 + yoe / 4 - yoe / 100 + doy;
        era * 146097 + doe - 1
    }

    /// Day of the week as a number counted from Monday: Monday is 1, Sunday
    /// is 7.
    pub open spec fn spec_weekday_from_monday(self) -> int {
        (self.spec_day_index() + 2) % 7 + 1
    }

    /// Computes the day of the week, counted from Monday as 1.
    pub fn weekday_number_from_monday(&self) -> (r: u8)
        ensures
            r as int == self.spec_weekday_from_monday(),
            1 <= r <= 7,
    {
        let y: u64 = if self.month <= 2 {
            self.year as u64 + 399
        } else {
            self.year as u64 + 400
        };
        let m: u64 = if self.month <= 2 {
            self.month as u64 + 9
        } else {
            self.month as u64 - 3
        };
        let era: u64 = y / 400;
        let yoe: u64 = y % 400;
        let doy: u64 = (153 * m + 2) / 5 + self.day as u64;
        let doe: u64 = yoe * 365 + yoe / 4 - yoe / 100 + doy;
        let idx: u64 = era * 146097 + doe - 1;
        ((idx + 2) % 7 + 1) as u8
    }
}

/// Day of the week test used by the business-day filter: Monday through
/// Friday.
pub open spec fn is_business_day(d: Date) -> bool {
    d.spec_weekday_from_monday() <= 5
}

/// The transport operator that billed a leg: the rail operator or the urban
/// transit operator.
#[derive(Clone, Copy, PartialEq, Eq, Structural, Debug)]
pub enum Provider {
    NS,
    GVB,
}

/// One priced, dated movement between two stations, as billed on the source
/// statement.
///
/// The fare is held in whole cents; a fare of exactly zero marks a decoy row
/// (a supplement or an already-settled line) that belongs to no journey.
#[derive(Debug)]
pub struct Trip {
    pub date: Date,
    pub provider: Provider,
    pub from: String,
    pub to: String,
    pub price: u64,
}

impl Trip {
    pub fn new(date: Date, provider: Provider, from: String, to: String, price: u64) -> (t: Trip)
        ensures
            t == (Trip { date, provider, from, to, price }),
    {
        Trip { date, provider, from, to, price }
    }
}

impl Clone for Trip {
    fn clone(&self) -> (r: Self)
        ensures
            r == *self,
    {
        Trip {
            date: self.date,
            provider: self.provider,
            from: self.from.clone(),
            to: self.to.clone(),
            price: self.price,
        }
    }
}

} // verus!
