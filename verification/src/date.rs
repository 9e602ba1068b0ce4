//! Calendar dates and the reading of a date token.

use chrono::Datelike;
use chrono::NaiveDate;
use vstd::prelude::*;

verus! {

/// A calendar date: year, month and day, with no time of day.
///
/// Dates are ordered by year, then by month, then by day.
#[derive(Clone, Copy, Debug, PartialEq, Eq, Structural)]
pub struct Date {
    pub year: i32,
    pub month: u32,
    pub day: u32,
}

impl Date {
    /// `self` is an earlier day than `other`.
    pub open spec fn is_before(self, other: Date) -> bool {
        self.year < other.year || (self.year == other.year && (self.month < other.month || (
        self.month == other.month && self.day < other.day)))
    }

    /// Whether `self` is an earlier day than `other`.
    pub fn precedes(&self, other: &Date) -> (earlier: bool)
        ensures
            earlier == self.is_before(*other),
    {
        self.year < other.year || (self.year == other.year && (self.month < other.month || (
        self.month == other.month && self.day < other.day)))
    }
}

/// The format in which a title's date token is written: month, day and
/// year in digits, with a full stop between them.
pub open spec fn date_format() -> Seq<char> {
    seq!['%', 'm', '.', '%', 'd', '.', '%', 'Y']
}

/// What chrono's `NaiveDate::parse_from_str` makes of `token` under
/// `format`: the year, month and day of the date it reads, or `None`
/// where it reports an error.
pub uninterp spec fn parsed_date(token: Seq<char>, format: Seq<char>) -> Option<(i32, u32, u32)>;

/// The date that `token` stands for, if it is one in `date_format()`.
pub open spec fn date_of(token: Seq<char>) -> Option<Date> {
    match parsed_date(token, date_format()) {
        Some((year, month, day)) => Some(Date { year, month, day }),
        None => None,
    }
}

/// Hands `token` and `format` to chrono's `NaiveDate::parse_from_str`, and
/// reads the date that comes back with `Datelike::year`, `month` and
/// `day`; an error of chrono becomes `None`.
///
/// Nothing is proved of this call. The contract gives the outcome its
/// name, `parsed_date`, and so claims no more than that it depends on
/// the two strings alone. Only `date_format()` is admitted as format:
/// chrono's source was read for that one.
#[verifier::external_body]
fn parse_with_format(token: &str, format: &str) -> (date: Option<Date>)
    requires
        format@ == date_format(),
    ensures
        date == match parsed_date(token@, format@) {
            Some((year, month, day)) => Some(Date { year, month, day }),
            None => None,
        },
{
    match NaiveDate::parse_from_str(token, format) {
        Ok(date) => Some(Date { year: date.year(), month: date.month(), day: date.day() }),
        Err(_) => None,
    }
}

/// Reads `token` as a date in `date_format()`.
pub fn parse_date(token: &str) -> (date: Option<Date>)
    ensures
        date == date_of(token@),
{
    let format = "%m.%d.%Y";
    proof {
        reveal_strlit("%m.%d.%Y");
        assert(format@ =~= date_format());
    }
    parse_with_format(token, format)
}

} // verus!
