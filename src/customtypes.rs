//! The data that flows through the library: calendar dates, releases and skip reasons.

use vstd::prelude::*;

verus! {

/// Whether `year` is a leap year of the proleptic Gregorian calendar.
pub open spec fn is_leap_year(year: int) -> bool {
    (year % 4 == 0 && year % 100 != 0) || year % 400 == 0
}

/// Number of days of `month` (1 to 12) in `year`.
pub open spec fn days_in_month(year: int, month: int) -> int {
    if month == 2 {
        if is_leap_year(year) { 29 } else { 28 }
    } else if month == 4 || month == 6 || month == 9 || month == 11 {
        30
    } else {
        31
    }
}

/// Whether day, month and year name an existing day of the Gregorian calendar.
pub open spec fn is_calendar_date(year: int, month: int, day: int) -> bool {
    1 <= month <= 12 && 1 <= day <= days_in_month(year, month)
}

/// A calendar day; a release date stands for midnight UTC of that day.
#[derive(Clone, Copy, Debug, PartialEq, Eq, Structural)]
pub struct ReleaseDate {
    pub year: i32,
    pub month: u32,
    pub day: u32,
}

impl ReleaseDate {
    /// The date exists in the calendar.
    pub open spec fn valid(self) -> bool {
        is_calendar_date(self.year as int, self.month as int, self.day as int)
    }

    /// Chronological order: `self` is on or before `other`.
    pub open spec fn on_or_before(self, other: ReleaseDate) -> bool {
        self.year < other.year || (self.year == other.year && (self.month < other.month || (
        self.month == other.month && self.day <= other.day)))
    }

    /// Whether `self` is on or before `other`.
    pub fn is_on_or_before(&self, other: &ReleaseDate) -> (r: bool)
        ensures
            r == self.on_or_before(*other),
    {
        self.year < other.year || (self.year == other.year && (self.month < other.month || (
        self.month == other.month && self.day <= other.day)))
    }
}

/// An upcoming release: who wrote it, what it is called and when it comes out.
#[derive(Debug)]
pub struct UpcomingRelease {
    pub author: String,
    pub title: String,
    pub date: ReleaseDate,
}

/// The mathematical value of a release.
pub struct ReleaseView {
    pub author: Seq<char>,
    pub title: Seq<char>,
    pub date: ReleaseDate,
}

impl View for UpcomingRelease {
    type V = ReleaseView;

    open spec fn view(&self) -> ReleaseView {
        ReleaseView { author: self.author@, title: self.title@, date: self.date }
    }
}

impl UpcomingRelease {
    /// A release of `title` by `author` on `date`.
    pub fn create(author: String, title: String, date: ReleaseDate) -> (r: Self)
        ensures
            r@ == (ReleaseView { author: author@, title: title@, date }),
    {
        UpcomingRelease { author, title, date }
    }
}

/// Why a result block of a page yields no release.
#[derive(Clone, Copy, Debug, PartialEq, Eq, Structural)]
pub enum SkipReason {
    /// The author's name does not occur in the block.
    AuthorNotFound,
    /// None of the wanted categories occurs in the block.
    CategoryMismatch,
    /// The author's line is the first line: no title stands before it.
    NoPrecedingTitle,
    /// No line of the block holds the author's name.
    AuthorLineNotFound,
    /// The release marker with a date is missing.
    NoDatePattern,
    /// The text after the release marker is not a `DD.MM.YYYY` calendar date.
    UnparsableDate,
}

} // verus!
