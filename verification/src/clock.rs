//! Wall-clock readings and verified calendar arithmetic.
//!
//! The engine itself is hermetic: every operation takes timestamps as plain
//! values.  The readings below are thin trusted wrappers over `chrono`; the
//! day-number arithmetic used for snapshot ages is verified code.

use vstd::prelude::*;

use chrono::Datelike;

verus! {

/// The standard library's opaque monotonic clock reading.
#[verifier::external_type_specification]
#[verifier::external_body]
pub struct ExInstant(std::time::Instant);

/// Relies on `std::time::Instant::now`: an opaque monotonic reading.
#[verifier::external_body]
pub fn instant_now() -> (r: std::time::Instant) {
    std::time::Instant::now()
}

/// Relies on `Instant::elapsed` and `Duration::as_millis`: the wall-clock
/// milliseconds since the reading was taken.
#[verifier::external_body]
pub fn elapsed_millis(start: &std::time::Instant) -> (r: u128) {
    start.elapsed().as_millis()
}

/// Relies on `chrono::Utc::now` and its formatter: the current UTC time
/// rendered at second resolution, `%Y%m%d_%H%M%S`.
#[verifier::external_body]
pub fn current_timestamp() -> (r: String) {
    chrono::Utc::now().format("%Y%m%d_%H%M%S").to_string()
}

/// The loose shape of an RFC 3339 timestamp in UTC: long enough for a
/// full date and time, a `T` separator somewhere, and the zero offset at
/// the end.
pub open spec fn rfc3339_shaped(s: Seq<char>) -> bool {
    s.len() >= 25 && crate::text::ends_with(s, "+00:00"@) && crate::text::has_sub(s, "T"@)
}

/// Relies on `chrono::Utc::now` and `to_rfc3339`: the current UTC time in
/// RFC 3339 form, for journal entries.  Its writer always produces a
/// four-digit-or-signed year, `-MM-DDTHH:MM:SS`, an optional fraction,
/// and the `+00:00` offset of UTC.
#[verifier::external_body]
pub fn current_rfc3339() -> (r: String)
    ensures
        rfc3339_shaped(r@),
{
    chrono::Utc::now().to_rfc3339()
}

/// Relies on `chrono::Datelike`: the current UTC calendar date.  `month`
/// and `day` are documented to be one-based and at most 12 and 31.
#[verifier::external_body]
pub fn current_date() -> (r: (i32, u32, u32))
    ensures
        1 <= r.1 <= 12,
        1 <= r.2 <= 31,
{
    let now = chrono::Utc::now();
    (now.year(), now.month(), now.day())
}

/// The civil day number of a Gregorian date, with day 0 at 1970-01-01.
/// The standard era-based formula; defined for years from 1 onward, where
/// every intermediate quantity is non-negative.
pub open spec fn day_number(y: int, m: int, d: int) -> int
    recommends
        1 <= y,
        1 <= m <= 12,
{
    let yy = if m <= 2 {
        y - 1
    } else {
        y
    };
    let era = yy / 400;
    let yoe = yy - era * 400;
    let mp = if m > 2 {
        m - 3
    } else {
        m + 9
    };
    let doy = (153 * mp + 2) / 5 + d - 1;
    let doe = yoe * 365 + yoe / 4 - yoe / 100 + doy;
    era * 146097 + doe - 719468
}

/// Whether a year is a Gregorian leap year.
pub open spec fn is_leap(y: int) -> bool {
    y % 4 == 0 && (y % 100 != 0 || y % 400 == 0)
}

/// The number of days of month `m` of year `y`.
pub open spec fn days_in_month(y: int, m: int) -> int
    recommends
        1 <= m <= 12,
{
    if m == 2 {
        if is_leap(y) {
            29
        } else {
            28
        }
    } else if m == 4 || m == 6 || m == 9 || m == 11 {
        30
    } else {
        31
    }
}

/// Whether year, month and day form a real calendar date (year 1 onward).
pub open spec fn valid_date(y: int, m: int, d: int) -> bool {
    1 <= y && 1 <= m <= 12 && 1 <= d <= days_in_month(y, m)
}

/// The civil day number, as executable code.
pub fn days_from_civil(y: u64, m: u64, d: u64) -> (r: i64)
    requires
        1 <= y <= 1000000,
        1 <= m <= 12,
        1 <= d <= 31,
    ensures
        r == day_number(y as int, m as int, d as int),
        -1000000 <= r <= 1000000000,
{
    let yy: u64 = if m <= 2 {
        y - 1
    } else {
        y
    };
    let era: u64 = yy / 400;
    proof {
        assert(era * 400 <= yy && era <= 2500) by (nonlinear_arith)
            requires
                era == yy / 400,
                0 <= yy <= 1000000,
        ;
        assert(yy - era * 400 < 400) by (nonlinear_arith)
            requires
                era == yy / 400,
                0 <= yy,
        ;
    }
    let yoe: u64 = yy - era * 400;
    let mp: u64 = if m > 2 {
        m - 3
    } else {
        m + 9
    };
    let doy: u64 = (153 * mp + 2) / 5 + d - 1;
    let doe: u64 = yoe * 365 + yoe / 4 - yoe / 100 + doy;
    (era as i64) * 146097 + (doe as i64) - 719468
}

/// The current date as a civil day number, where the calendar library
/// reports a date in the supported range.
pub fn today_day_number() -> (r: Option<i64>)
    ensures
        match r {
            Some(n) => -1000000 <= n <= 1000000000,
            None => true,
        },
{
    let (y, m, d) = current_date();
    if 1 <= y && y <= 1000000 {
        Some(days_from_civil(y as u64, m as u64, d as u64))
    } else {
        None
    }
}

} // verus!
