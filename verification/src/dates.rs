//! Calendar dates, held as day numbers: the count of days since the start
//! of the common era that `chrono` gives (`0001-01-01` is day 1). Later
//! dates have larger numbers, and a date `n` days earlier has a number
//! smaller by `n`.

use vstd::prelude::*;
use chrono::Datelike;

verus! {

/// The day number of the date that `chrono::NaiveDate::parse_from_str`
/// reads from `s` in the format `fmt`, or `None` when it rejects `s`.
pub uninterp spec fn chrono_parse_day(s: Seq<char>, fmt: Seq<char>) -> Option<i32>;

/// Whether `chrono::NaiveDate::from_num_days_from_ce_opt` finds a date for
/// the day number.
pub uninterp spec fn chrono_day_valid(day: i32) -> bool;

/// The text that `chrono` writes for the date with the day number, in the
/// format `fmt` (`NaiveDate::format`).
pub uninterp spec fn chrono_format_day(day: i32, fmt: Seq<char>) -> Seq<char>;

/// The formats that dates are rendered in; `chrono` writes all of them
/// without error.
pub open spec fn renderable_format(fmt: Seq<char>) -> bool {
    ||| fmt == "%Y-%m-%d"@
    ||| fmt == "%Y-%m"@
    ||| fmt == "%d/%m/%Y"@
    ||| fmt == "%d/%m/%y"@
    ||| fmt == "%m/%d/%Y"@
    ||| fmt == "%m/%d/%y"@
    ||| fmt == "%Y/%m/%d"@
    ||| fmt == "%b %d, %Y"@
    ||| fmt == "%d %b %Y"@
    ||| fmt == "%B %d, %Y"@
    ||| fmt == "%d %B %y"@
    ||| fmt == "%d %B %Y"@
}

/// Reads a date from `s` in the format `fmt` (`chrono::NaiveDate::parse_from_str`),
/// giving its day number. The contract names the result and adds that a
/// date it reads exists, so that it can be written out again; it states
/// nothing of which texts a format accepts.
#[verifier::external_body]
pub(crate) fn parse_day(s: &str, fmt: &str) -> (r: Option<i32>)
    ensures
        r == chrono_parse_day(s@, fmt@),
        r matches Some(d) ==> chrono_day_valid(d),
{
    match chrono::NaiveDate::parse_from_str(s, fmt) {
        Ok(d) => Some(d.num_days_from_ce()),
        Err(_) => None,
    }
}

/// Writes the date with the given day number in the format `fmt`
/// (`chrono::NaiveDate::format`). The contract only names the text.
#[verifier::external_body]
pub(crate) fn format_day(day: i32, fmt: &str) -> (r: String)
    requires
        chrono_day_valid(day),
        renderable_format(fmt@),
    ensures
        r@ == chrono_format_day(day, fmt@),
{
    match chrono::NaiveDate::from_num_days_from_ce_opt(day) {
        Some(d) => d.format(fmt).to_string(),
        None => String::new(),
    }
}

/// The year and month of the date with the day number, as `chrono` gives
/// them, or `None` when it has no such date.
pub uninterp spec fn chrono_year_month(day: i32) -> Option<(i32, u32)>;

/// The day number of the date `y-m-d`
/// (`chrono::NaiveDate::from_ymd_opt`), or `None` when there is no such
/// date.
pub uninterp spec fn chrono_from_ymd(y: i32, m: u32, d: u32) -> Option<i32>;

/// The year and month of a day number
/// (`chrono::NaiveDate::from_num_days_from_ce_opt`, then `year` and
/// `month`). The contract names the result and adds that a month is
/// between 1 and 12, as `Datelike::month` documents.
#[verifier::external_body]
pub(crate) fn year_month(day: i32) -> (r: Option<(i32, u32)>)
    ensures
        r == chrono_year_month(day),
        r matches Some((_, m)) ==> 1 <= m <= 12,
{
    chrono::NaiveDate::from_num_days_from_ce_opt(day).map(|d| (d.year(), d.month()))
}

/// The day number of the date `y-m-d` (`chrono::NaiveDate::from_ymd_opt`).
/// The contract names the result.
#[verifier::external_body]
pub(crate) fn from_ymd(y: i32, m: u32, d: u32) -> (r: Option<i32>)
    ensures
        r == chrono_from_ymd(y, m, d),
{
    chrono::NaiveDate::from_ymd_opt(y, m, d).map(|x| x.num_days_from_ce())
}

} // verus!
