use vstd::prelude::*;

use crate::errors::StribotError;
use crate::scan::to_chars;
use crate::temp::{all_digits_exec, all_digits_range, digits_val_range, digits_value_u64, pow10};
use crate::temp::{lemma_digits_val_range_bound, lemma_pow10_increases, lemma_unit_scale};

verus! {

/// A naive local timestamp at second precision, no timezone.
#[derive(Clone, Copy, Debug, PartialEq, Eq, Structural)]
pub struct DateTime {
    pub year: u16,
    pub month: u8,
    pub day: u8,
    pub hour: u8,
    pub minute: u8,
    pub second: u8,
}

/// A leap year of the Gregorian calendar.
pub open spec fn is_leap_year(y: int) -> bool {
    y % 4 == 0 && (y % 100 != 0 || y % 400 == 0)
}

/// Number of days of month `m` of year `y`.
pub open spec fn days_in_month(y: int, m: int) -> int {
    if m == 2 {
        if is_leap_year(y) {
            29
        } else {
            28
        }
    } else if m == 4 || m == 6 || m == 9 || m == 11 {
        30
    } else {
        31
    }
}

impl DateTime {
    /// Every component within its calendar range.
    pub open spec fn wf(self) -> bool {
        self.year <= 9999 && 1 <= self.month <= 12 && 1 <= self.day && self.day as int
            <= days_in_month(self.year as int, self.month as int) && self.hour <= 23 && self.minute
            <= 59 && self.second <= 59
    }

    /// An integer key that orders timestamps chronologically: positional
    /// mixed-radix encoding of the components.
    pub open spec fn key(self) -> int {
        ((((self.year as int * 13 + self.month as int) * 32 + self.day as int) * 24
            + self.hour as int) * 60 + self.minute as int) * 60 + self.second as int
    }

    /// Build a timestamp from components, rejecting out-of-range ones.
    pub fn new(year: u16, month: u8, day: u8, hour: u8, minute: u8, second: u8) -> (r: Option<
        DateTime,
    >)
        ensures
            ({
                let d = DateTime { year, month, day, hour, minute, second };
                if d.wf() {
                    r == Some(d)
                } else {
                    r is None
                }
            }),
    {
        let d = DateTime { year, month, day, hour, minute, second };
        if year <= 9999 && 1 <= month && month <= 12 && 1 <= day && day
            <= days_in_month_exec(year, month) && hour <= 23 && minute <= 59 && second <= 59 {
            Some(d)
        } else {
            None
        }
    }
}

/// Executable day count of a month.
pub fn days_in_month_exec(y: u16, m: u8) -> (r: u8)
    ensures
        r as int == days_in_month(y as int, m as int),
{
    if m == 2 {
        if y % 4 == 0 && (y % 100 != 0 || y % 400 == 0) {
            29
        } else {
            28
        }
    } else if m == 4 || m == 6 || m == 9 || m == 11 {
        30
    } else {
        31
    }
}

/// Chronological order on timestamps (through the mixed-radix key).
pub open spec fn dt_le(a: DateTime, b: DateTime) -> bool {
    a.key() <= b.key()
}

/// Executable chronological comparison, exact against the key order.
pub fn dt_le_exec(a: &DateTime, b: &DateTime) -> (r: bool)
    ensures
        r == dt_le(*a, *b),
{
    let ka = dt_key_u64(a);
    let kb = dt_key_u64(b);
    ka <= kb
}

/// The mixed-radix key as a machine integer; it fits `u64` for any field
/// values.
fn dt_key_u64(d: &DateTime) -> (k: u64)
    ensures
        k as int == d.key(),
{
    ((((d.year as u64 * 13 + d.month as u64) * 32 + d.day as u64) * 24 + d.hour as u64) * 60
        + d.minute as u64) * 60 + d.second as u64
}

/// The fixed `YYYY-MM-DD HH:MM:SS` layout: 19 characters, digits and the
/// exact separators in place.
pub open spec fn dt_layout_ok(s: Seq<char>) -> bool {
    s.len() == 19 && all_digits_range(s, 0, 4) && s[4] == '-' && all_digits_range(s, 5, 7) && s[7]
        == '-' && all_digits_range(s, 8, 10) && s[10] == ' ' && all_digits_range(s, 11, 13) && s[13]
        == ':' && all_digits_range(s, 14, 16) && s[16] == ':' && all_digits_range(s, 17, 19)
}

/// The components written in a well-laid-out timestamp string.
pub open spec fn dt_fields(s: Seq<char>) -> DateTime {
    DateTime {
        year: digits_val_range(s, 0, 4) as u16,
        month: digits_val_range(s, 5, 7) as u8,
        day: digits_val_range(s, 8, 10) as u8,
        hour: digits_val_range(s, 11, 13) as u8,
        minute: digits_val_range(s, 14, 16) as u8,
        second: digits_val_range(s, 17, 19) as u8,
    }
}

/// The written components are within calendar ranges.
pub open spec fn dt_ranges_ok(s: Seq<char>) -> bool {
    let y = digits_val_range(s, 0, 4) as int;
    let mo = digits_val_range(s, 5, 7) as int;
    let d = digits_val_range(s, 8, 10) as int;
    let h = digits_val_range(s, 11, 13) as int;
    let mi = digits_val_range(s, 14, 16) as int;
    let sec = digits_val_range(s, 17, 19) as int;
    1 <= mo <= 12 && 1 <= d <= days_in_month(y, mo) && h <= 23 && mi <= 59 && sec <= 59
}

/// What the timestamp parser yields: the written components on an exact
/// `YYYY-MM-DD HH:MM:SS` string whose components are in range, and
/// `ParseError` on any deviation from the format.
pub open spec fn dt_spec(s: Seq<char>) -> Result<DateTime, StribotError> {
    if dt_layout_ok(s) && dt_ranges_ok(s) {
        Ok(dt_fields(s))
    } else {
        Err(StribotError::ParseError)
    }
}

/// A parsed timestamp is well-formed.
pub proof fn lemma_dt_spec_wf(s: Seq<char>)
    ensures
        dt_spec(s) matches Ok(d) ==> d.wf(),
{
    if dt_layout_ok(s) && dt_ranges_ok(s) {
        lemma_digits_val_range_bound(s, 0, 4);
        lemma_digits_val_range_bound(s, 5, 7);
        lemma_digits_val_range_bound(s, 8, 10);
        lemma_digits_val_range_bound(s, 11, 13);
        lemma_digits_val_range_bound(s, 14, 16);
        lemma_digits_val_range_bound(s, 17, 19);
        assert(pow10(4) == 10000 && pow10(2) == 100) by {
            reveal_with_fuel(pow10, 5);
        }
    }
}

/// Parse a fixed-format `YYYY-MM-DD HH:MM:SS` string.
pub fn parse_datetime(s: &str) -> (r: Result<DateTime, StribotError>)
    ensures
        r == dt_spec(s@),
{
    let chars = to_chars(s);
    parse_datetime_chars(&chars)
}

/// The timestamp parser on an already decoded character vector.
pub fn parse_datetime_chars(s: &Vec<char>) -> (r: Result<DateTime, StribotError>)
    ensures
        r == dt_spec(s@),
{
    if s.len() != 19 {
        return Err(StribotError::ParseError);
    }
    if !(s[4] == '-' && s[7] == '-' && s[10] == ' ' && s[13] == ':' && s[16] == ':') {
        return Err(StribotError::ParseError);
    }
    if !(all_digits_exec(s, 0, 4) && all_digits_exec(s, 5, 7) && all_digits_exec(s, 8, 10)
        && all_digits_exec(s, 11, 13) && all_digits_exec(s, 14, 16) && all_digits_exec(
        s,
        17,
        19,
    )) {
        return Err(StribotError::ParseError);
    }
    proof {
        lemma_digits_val_range_bound(s@, 0, 4);
        lemma_digits_val_range_bound(s@, 5, 7);
        lemma_digits_val_range_bound(s@, 8, 10);
        lemma_digits_val_range_bound(s@, 11, 13);
        lemma_digits_val_range_bound(s@, 14, 16);
        lemma_digits_val_range_bound(s@, 17, 19);
        assert(pow10(4) == 10000 && pow10(2) == 100) by {
            reveal_with_fuel(pow10, 5);
        }
        lemma_pow10_increases(4, 18);
        lemma_unit_scale();
    }
    let year = field_value(s, 0, 4) as u16;
    let month = field_value(s, 5, 7) as u8;
    let day = field_value(s, 8, 10) as u8;
    let hour = field_value(s, 11, 13) as u8;
    let minute = field_value(s, 14, 16) as u8;
    let second = field_value(s, 17, 19) as u8;
    if !(1 <= month && month <= 12 && 1 <= day && day <= days_in_month_exec(year, month) && hour
        <= 23 && minute <= 59 && second <= 59) {
        return Err(StribotError::ParseError);
    }
    Ok(DateTime { year, month, day, hour, minute, second })
}

/// A short all-digit field's value; fits far below `u64`.
fn field_value(s: &Vec<char>, a: usize, b: usize) -> (v: u64)
    requires
        a <= b <= s.len(),
        b - a <= 4,
        all_digits_range(s@, a as int, b as int),
    ensures
        v == digits_val_range(s@, a as int, b as int),
        v < 10000,
{
    proof {
        lemma_digits_val_range_bound(s@, a as int, b as int);
        lemma_pow10_increases((b - a) as nat, 4);
        lemma_pow10_increases(4, 18);
        lemma_unit_scale();
        assert(pow10(4) == 10000) by {
            reveal_with_fuel(pow10, 5);
        }
    }
    match digits_value_u64(s, a, b) {
        Some(v) => v,
        None => {
            proof {
                assert(false);
            }
            0
        },
    }
}

} // verus!
