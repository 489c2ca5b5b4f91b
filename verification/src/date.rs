//! Calendar days.

use crate::decimal::{append_number, numeral};
use crate::iterators::Keyed;
use vstd::prelude::*;

verus! {

/// The day number of the calendar day `year`-`month`-`day`, where there is such
/// a day within the calendar's range.
pub uninterp spec fn day_number(year: int, month: int, day: int) -> Option<int>;

/// The calendar year in which the day of number `days` lies, where the day is
/// within the calendar's range.
pub uninterp spec fn year_of_day(days: int) -> Option<int>;

/// The day number of the day with the month and day of month of the day of
/// number `days`, in the year `year`, where there is such a day.
pub uninterp spec fn day_in_year(days: int, year: int) -> Option<int>;

/// The calendar day of number `days` as text, where the day is within the
/// calendar's range.
pub uninterp spec fn date_text(days: int) -> Option<Seq<char>>;

/// `NaiveDate`'s `Display` writes a date as its year, month and day of month,
/// four, two and two digits joined by `-` (a year outside 0 to 9999 with its
/// sign); the date is made from its day number by
/// `NaiveDate::from_num_days_from_ce_opt`, which gives `None` out of range. The
/// text depends on the day number alone.
#[verifier::external_body]
fn chrono_date_text(days: i32) -> (text: Option<String>)
    ensures
        match text {
            Some(t) => date_text(days as int) == Some(t@),
            None => date_text(days as int) is None,
        },
{
    match chrono::NaiveDate::from_num_days_from_ce_opt(days) {
        Some(date) => Some(format!("{}", date)),
        None => None,
    }
}

/// `chrono::NaiveDate::from_ymd_opt` makes the date of a year, month and day of
/// month, or `None` where no such day exists or it is out of range;
/// `Datelike::num_days_from_ce` then counts its days from 1 January of year 1,
/// which is day 1. Both depend on their arguments alone.
#[verifier::external_body]
fn chrono_day_number(year: i32, month: u32, day: u32) -> (days: Option<i32>)
    ensures
        match days {
            Some(d) => day_number(year as int, month as int, day as int) == Some(d as int),
            None => day_number(year as int, month as int, day as int) is None,
        },
{
    match chrono::NaiveDate::from_ymd_opt(year, month, day) {
        Some(date) => Some(chrono::Datelike::num_days_from_ce(&date)),
        None => None,
    }
}

/// `chrono::Datelike::year` gives the calendar year of a date; the date is made
/// from its day number by `NaiveDate::from_num_days_from_ce_opt`, which gives
/// `None` out of range.
#[verifier::external_body]
fn chrono_year(days: i32) -> (year: Option<i32>)
    ensures
        match year {
            Some(y) => year_of_day(days as int) == Some(y as int),
            None => year_of_day(days as int) is None,
        },
{
    match chrono::NaiveDate::from_num_days_from_ce_opt(days) {
        Some(date) => Some(chrono::Datelike::year(&date)),
        None => None,
    }
}

/// `chrono::Datelike::with_year` changes the year of a date and keeps its month
/// and day of month; it gives `None` where that day does not exist (29
/// February) or the year is out of range.
#[verifier::external_body]
fn chrono_with_year(days: i32, year: i32) -> (moved: Option<i32>)
    ensures
        match moved {
            Some(d) => day_in_year(days as int, year as int) == Some(d as int),
            None => day_in_year(days as int, year as int) is None,
        },
{
    match chrono::NaiveDate::from_num_days_from_ce_opt(days) {
        Some(date) => match chrono::Datelike::with_year(&date, year) {
            Some(moved) => Some(chrono::Datelike::num_days_from_ce(&moved)),
            None => None,
        },
        None => None,
    }
}

/// A calendar day, held as its day number: 1 January of year 1 is day 1.
#[derive(Clone, Copy, Debug, PartialEq, Eq, PartialOrd, Ord, Hash, Structural)]
pub struct Date {
    pub days: i32,
}

impl View for Date {
    type V = int;

    open spec fn view(&self) -> int {
        self.days as int
    }
}

/// The year after `year`, where there is a year and it is not the last that
/// can be numbered.
pub open spec fn following_year(year: Option<int>) -> Option<int> {
    match year {
        Some(y) => if y < i32::MAX {
            Some(y + 1)
        } else {
            None
        },
        None => None,
    }
}

/// The day of number `moved`, where there is one and it is later than the day
/// of number `days`.
pub open spec fn if_later(days: int, moved: Option<int>) -> Option<int> {
    match moved {
        Some(m) => if days < m <= i32::MAX {
            Some(m)
        } else {
            None
        },
        None => None,
    }
}

/// The day one year after the day of number `days`: the same month and day of
/// month in the next year. There is none after a 29 February, nor at the end
/// of the calendar.
pub open spec fn year_after(days: int) -> Option<int> {
    match following_year(year_of_day(days)) {
        Some(year) => if_later(days, day_in_year(days, year)),
        None => None,
    }
}

/// The text of the day of number `days`: the calendar's text `written` where
/// the calendar has the day, else the day number behind the word `day`.
pub open spec fn day_text(days: int, written: Option<Seq<char>>) -> Seq<char> {
    match written {
        Some(text) => text,
        None => "day "@ + (if days < 0 {
            seq!['-']
        } else {
            Seq::empty()
        }) + numeral(
            (if days < 0 {
                -days
            } else {
                days
            }) as nat,
        ),
    }
}

/// The day `count` days after the day of number `days`, while day numbers last.
pub open spec fn days_after(days: int, count: int) -> Option<int> {
    if i32::MIN <= days + count <= i32::MAX {
        Some(days + count)
    } else {
        None
    }
}

impl Date {
    /// The day of the given number.
    pub fn from_days(days: i32) -> (date: Date)
        ensures
            date@ == days,
    {
        Date { days }
    }

    /// The day `year`-`month`-`day`, where the calendar has it.
    pub fn from_ymd(year: i32, month: u32, day: u32) -> (date: Option<Date>)
        ensures
            match date {
                Some(d) => day_number(year as int, month as int, day as int) == Some(d@),
                None => day_number(year as int, month as int, day as int) is None,
            },
    {
        match chrono_day_number(year, month, day) {
            Some(days) => Some(Date { days }),
            None => None,
        }
    }

    /// The year after `year`, where there is a year and it is not the last
    /// that can be numbered.
    pub fn following_year(year: Option<i32>) -> (next: Option<i32>)
        ensures
            match next {
                Some(y) => year is Some && year->0 < i32::MAX && y == year->0 + 1,
                None => year is None || year->0 == i32::MAX,
            },
    {
        match year {
            Some(y) => {
                if y < i32::MAX {
                    Some(y + 1)
                } else {
                    None
                }
            },
            None => None,
        }
    }

    /// The day of number `moved`, where there is one and it is later than
    /// this day.
    pub fn if_later(self, moved: Option<i32>) -> (next: Option<Date>)
        ensures
            match next {
                Some(d) => moved == Some(d.days) && self.days < d.days,
                None => moved is None || moved->0 <= self.days,
            },
    {
        match moved {
            Some(days) => {
                if self.days < days {
                    Some(Date { days })
                } else {
                    None
                }
            },
            None => None,
        }
    }

    /// The same day of the next year.
    pub fn next_year(self) -> (next: Option<Date>)
        ensures
            match next {
                Some(d) => year_after(self@) == Some(d@),
                None => year_after(self@) is None,
            },
    {
        match Date::following_year(chrono_year(self.days)) {
            Some(year) => self.if_later(chrono_with_year(self.days, year)),
            None => None,
        }
    }

    /// The text of this day: `written` where the calendar gave one, else the
    /// day number behind the word `day`.
    pub fn text_from(self, written: Option<String>) -> (text: String)
        ensures
            text@ == day_text(
                self@,
                match written {
                    Some(t) => Some(t@),
                    None => None,
                },
            ),
    {
        match written {
            Some(text) => text,
            None => {
                let mut text = "day ".to_owned();
                proof {
                    reveal_strlit("-");
                    assert("-"@ =~= seq!['-']);
                }
                let magnitude: u64 = if self.days < 0 {
                    text.append("-");
                    ((-(self.days + 1)) as u64) + 1
                } else {
                    self.days as u64
                };
                append_number(&mut text, magnitude);
                proof {
                    assert(text@ =~= day_text(self@, None));
                }
                text
            },
        }
    }

    /// The day as text, as the calendar writes it.
    pub fn to_string(&self) -> (text: String)
        ensures
            text@ == day_text(self@, date_text(self@)),
    {
        self.text_from(chrono_date_text(self.days))
    }

    /// The day `count` days later.
    pub fn plus_days(self, count: i32) -> (next: Option<Date>)
        ensures
            match next {
                Some(d) => days_after(self@, count as int) == Some(d@),
                None => days_after(self@, count as int) is None,
            },
    {
        match self.days.checked_add(count) {
            Some(days) => Some(Date { days }),
            None => None,
        }
    }

    /// The day number.
    pub fn days(self) -> (days: i32)
        ensures
            days == self@,
    {
        self.days
    }

    /// Whether this day is not after `other`.
    pub fn not_after(self, other: Date) -> (b: bool)
        ensures
            b == (self@ <= other@),
    {
        self.days <= other.days
    }
}

impl Keyed for Date {
    open spec fn key(v: int) -> int {
        v
    }

    fn sort_key(&self) -> (k: i64) {
        self.days as i64
    }
}

} // verus!
