//! Calendar dates, as chrono reads and writes them. A date is carried as
//! its day number counted from the first day of the common era.

use vstd::prelude::*;
use chrono::{Datelike, NaiveDate};

verus! {

/// The day number of the `YYYY-MM-DD` date that `s` spells, as chrono reads
/// it; `None` where `s` spells no date.
pub uninterp spec fn day_number_of(s: Seq<char>) -> Option<int>;

/// The `YYYY-MM-DD` text of day number `n`; `None` where chrono cannot
/// represent that day.
pub uninterp spec fn date_text_of(n: int) -> Option<Seq<char>>;

/// Relies on `chrono::NaiveDate::parse_from_str` with the format
/// `%Y-%m-%d`, and on `Datelike::num_days_from_ce` to number the date.
#[verifier::external_body]
fn parse_day_number(s: &str) -> (r: Option<i32>)
    ensures
        match r {
            Some(n) => day_number_of(s@) == Some(n as int),
            None => day_number_of(s@) is None,
        },
{
    NaiveDate::parse_from_str(s, "%Y-%m-%d").ok().map(|d| d.num_days_from_ce())
}

/// Relies on `chrono::NaiveDate::from_num_days_from_ce_opt`, and on its
/// `format` with `%Y-%m-%d` to write the date.
#[verifier::external_body]
fn day_number_text(n: i32) -> (r: Option<String>)
    ensures
        match r {
            Some(t) => date_text_of(n as int) == Some(t@),
            None => date_text_of(n as int) is None,
        },
{
    NaiveDate::from_num_days_from_ce_opt(n).map(|d| d.format("%Y-%m-%d").to_string())
}

/// The last day of a window of `days` days that starts on `start`.
pub open spec fn window_end(start: Seq<char>, days: int) -> Option<Seq<char>> {
    match day_number_of(start) {
        Some(n) => if n + days - 1 <= i32::MAX && n + days - 1 >= i32::MIN {
            date_text_of(n + days - 1)
        } else {
            None
        },
        None => None,
    }
}

/// Whether `s` spells a `YYYY-MM-DD` date.
pub fn is_calendar_date(s: &str) -> (r: bool)
    ensures
        r == (day_number_of(s@) is Some),
{
    parse_day_number(s).is_some()
}

/// The `YYYY-MM-DD` text of the last day of a window of `days` days (1 to
/// 366) starting on the date `start` spells.
pub fn window_end_text(start: &str, days: i64) -> (r: Option<String>)
    requires
        1 <= days <= 366,
    ensures
        match r {
            Some(t) => window_end(start@, days as int) == Some(t@),
            None => window_end(start@, days as int) is None,
        },
{
    match parse_day_number(start) {
        None => None,
        Some(n) => {
            let last = n as i64 + days - 1;
            if last > i32::MAX as i64 || last < i32::MIN as i64 {
                None
            } else {
                day_number_text(last as i32)
            }
        },
    }
}

} // verus!
