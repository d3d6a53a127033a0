use crate::bytes::{capped, digits_value, read_number, rest_from, scan_end, ByteClass};
use crate::error::{error_at, ParseError, ParseErrorKind};
use vstd::prelude::*;

verus! {

#[verifier::external_type_specification]
#[verifier::external_body]
pub struct ExNaiveDate(chrono::NaiveDate);

#[verifier::external_type_specification]
#[verifier::external_body]
pub struct ExNaiveTime(chrono::NaiveTime);

/// The smallest year that chrono's `NaiveDate` represents.
pub const CHRONO_MIN_YEAR: i32 = -262143;

/// The largest year that chrono's `NaiveDate` represents.
pub const CHRONO_MAX_YEAR: i32 = 262142;

/// Leap years of the proleptic Gregorian calendar.
pub open spec fn is_leap_year(y: int) -> bool {
    y % 4 == 0 && (y % 100 != 0 || y % 400 == 0)
}

pub open spec fn days_in_month(y: int, m: int) -> int {
    if m == 2 {
        if is_leap_year(y) {
            29
        } else {
            28
        }
    } else if m == 4 || m == 6 || m == 9 || m == 11 {
        30
    } else {
        31
    }
}

/// `(y, m, d)` is a day of the proleptic Gregorian calendar in chrono's range.
pub open spec fn is_calendar_date(y: int, m: int, d: int) -> bool {
    &&& CHRONO_MIN_YEAR <= y <= CHRONO_MAX_YEAR
    &&& 1 <= m <= 12
    &&& 1 <= d <= days_in_month(y, m)
}

/// `(h, m, s)` is a time of day, without leap seconds.
pub open spec fn is_time_of_day(h: int, m: int, s: int) -> bool {
    0 <= h < 24 && 0 <= m < 60 && 0 <= s < 60
}

/// chrono's `NaiveDate::from_ymd_opt` gives a date exactly for the days of the
/// proleptic Gregorian calendar within its year range.
pub assume_specification[ chrono::NaiveDate::from_ymd_opt ](year: i32, month: u32, day: u32) -> (r:
    Option<chrono::NaiveDate>)
    ensures
        r.is_some() <==> is_calendar_date(year as int, month as int, day as int),
;

/// chrono's `NaiveTime::from_hms_opt` gives a time exactly for hours below 24
/// and minutes and seconds below 60.
pub assume_specification[ chrono::NaiveTime::from_hms_opt ](hour: u32, min: u32, sec: u32) -> (r:
    Option<chrono::NaiveTime>)
    ensures
        r.is_some() <==> is_time_of_day(hour as int, min as int, sec as int),
;

/// A calendar date and a time of day, to the second.
pub struct TimestampModel {
    pub year: int,
    pub month: int,
    pub day: int,
    pub hour: int,
    pub minute: int,
    pub second: int,
}

impl TimestampModel {
    pub open spec fn is_valid(self) -> bool {
        is_calendar_date(self.year, self.month, self.day) && is_time_of_day(
            self.hour,
            self.minute,
            self.second,
        )
    }
}

/// The instant at which a message was sent.
#[derive(Debug, PartialEq, Eq, PartialOrd, Ord, Clone, Copy, Hash)]
pub struct Timestamp {
    year: i32,
    month: u32,
    day: u32,
    hour: u32,
    minute: u32,
    second: u32,
}

impl View for Timestamp {
    type V = TimestampModel;

    closed spec fn view(&self) -> TimestampModel {
        TimestampModel {
            year: self.year as int,
            month: self.month as int,
            day: self.day as int,
            hour: self.hour as int,
            minute: self.minute as int,
            second: self.second as int,
        }
    }
}

/// The year that a two-digit year stands for: 1970 to 2069.
pub open spec fn full_year(yy: int) -> int {
    if yy < 70 {
        2000 + yy
    } else {
        1900 + yy
    }
}

/// A non-empty run of digits at `i` followed by the byte `sep`: its value and
/// the position after `sep`.
pub open spec fn number_before(s: Seq<u8>, i: int, sep: u8) -> Option<(nat, int)> {
    let e = scan_end(s, i, ByteClass::Digit);
    if i < e && e < s.len() && s[e] == sep {
        Some((digits_value(s.subrange(i, e)), e + 1))
    } else {
        None
    }
}

/// The numbers of a token `[d.m.y, H:M:S]` at `i`, in the order day, month,
/// year, hour, minute, second, and the position after the token.
pub open spec fn timestamp_token(s: Seq<u8>, i: int) -> Option<(Seq<nat>, int)> {
    if !(0 <= i < s.len() && s[i] == 91) {
        None
    } else {
        match number_before(s, i + 1, 46) {
            None => None,
            Some((day, a)) => match number_before(s, a, 46) {
                None => None,
                Some((month, b)) => match number_before(s, b, 44) {
                    None => None,
                    Some((year, c)) => if !(c < s.len() && s[c] == 32) {
                        None
                    } else {
                        match number_before(s, c + 1, 58) {
                            None => None,
                            Some((hour, d)) => match number_before(s, d, 58) {
                                None => None,
                                Some((minute, e)) => match number_before(s, e, 93) {
                                    None => None,
                                    Some((second, f)) => Some(
                                        (seq![day, month, year, hour, minute, second], f),
                                    ),
                                },
                            },
                        }
                    },
                },
            },
        }
    }
}

/// The numbers of a token name a two-digit year and a real instant.
pub open spec fn fields_valid(f: Seq<nat>) -> bool {
    &&& f[2] <= 99
    &&& is_calendar_date(full_year(f[2] as int), f[1] as int, f[0] as int)
    &&& is_time_of_day(f[3] as int, f[4] as int, f[5] as int)
}

pub open spec fn model_of_fields(f: Seq<nat>) -> TimestampModel {
    TimestampModel {
        year: full_year(f[2] as int),
        month: f[1] as int,
        day: f[0] as int,
        hour: f[3] as int,
        minute: f[4] as int,
        second: f[5] as int,
    }
}

/// The timestamp whose token stands at `i`, and the position after the token.
pub open spec fn spec_timestamp_at(s: Seq<u8>, i: int) -> Option<(TimestampModel, int)> {
    match timestamp_token(s, i) {
        Some((f, j)) => if fields_valid(f) {
            Some((model_of_fields(f), j))
        } else {
            None
        },
        None => None,
    }
}

/// Reads a non-empty number at `i` followed by `sep`; see `number_before`.
fn number_then(s: &[u8], i: usize, sep: u8) -> (r: Option<(u32, usize)>)
    requires
        i <= s@.len(),
    ensures
        match number_before(s@, i as int, sep) {
            None => r is None,
            Some((v, j)) => r matches Some((w, k)) && w as nat == capped(v) && k == j && k
                <= s@.len(),
        },
{
    let (v, e) = read_number(s, i);
    if i < e && e < s.len() && s[e] == sep {
        Some((v, e + 1))
    } else {
        None
    }
}

impl Timestamp {
    #[verifier::type_invariant]
    spec fn is_real(self) -> bool {
        self@.is_valid()
    }

    /// Reads the timestamp token at `i`; see `spec_timestamp_at`.
    pub fn parse_at(s: &[u8], i: usize) -> (r: Option<(Timestamp, usize)>)
        requires
            i <= s@.len(),
        ensures
            match spec_timestamp_at(s@, i as int) {
                None => r is None,
                Some((m, j)) => r matches Some((t, k)) && t@ == m && k == j && k <= s@.len(),
            },
    {
        if !(i < s.len() && s[i] == 91) {
            return None;
        }
        let (day, a) = match number_then(s, i + 1, 46) {
            Some(x) => x,
            None => return None,
        };
        let (month, b) = match number_then(s, a, 46) {
            Some(x) => x,
            None => return None,
        };
        let (yy, c) = match number_then(s, b, 44) {
            Some(x) => x,
            None => return None,
        };
        if !(c < s.len() && s[c] == 32) {
            return None;
        }
        let (hour, d) = match number_then(s, c + 1, 58) {
            Some(x) => x,
            None => return None,
        };
        let (minute, e) = match number_then(s, d, 58) {
            Some(x) => x,
            None => return None,
        };
        let (second, f) = match number_then(s, e, 93) {
            Some(x) => x,
            None => return None,
        };
        if yy > 99 {
            return None;
        }
        let year: i32 = if yy < 70 {
            2000 + yy as i32
        } else {
            1900 + yy as i32
        };
        let date = chrono::NaiveDate::from_ymd_opt(year, month, day);
        let time = chrono::NaiveTime::from_hms_opt(hour, minute, second);
        if date.is_none() || time.is_none() {
            return None;
        }
        Some((Timestamp { year, month, day, hour, minute, second }, f))
    }

    /// Reads a `[dd.mm.yy, H:M:S]` token at the start of `input`; returns
    /// the bytes after it and the timestamp.
    pub fn parse(input: &[u8]) -> (r: Result<(&[u8], Timestamp), ParseError>)
        ensures
            match spec_timestamp_at(input@, 0) {
                None => r == Err::<(&[u8], Timestamp), ParseError>(
                    error_at(ParseErrorKind::MalformedTimestamp, 0),
                ),
                Some((m, j)) => r matches Ok((rest, t)) && t@ == m && rest@ == input@.skip(j),
            },
    {
        match Timestamp::parse_at(input, 0) {
            Some((t, j)) => Ok((rest_from(input, j), t)),
            None => Err(ParseError { kind: ParseErrorKind::MalformedTimestamp, offset: 0 }),
        }
    }

    /// The year, month (1 to 12) and day (1 to 31).
    pub fn ymd(&self) -> (r: (i32, u32, u32))
        ensures
            r.0 as int == self@.year,
            r.1 as int == self@.month,
            r.2 as int == self@.day,
            is_calendar_date(r.0 as int, r.1 as int, r.2 as int),
    {
        proof {
            use_type_invariant(self);
        }
        (self.year, self.month, self.day)
    }

    /// The hour, minute and second.
    pub fn hms(&self) -> (r: (u32, u32, u32))
        ensures
            r.0 as int == self@.hour,
            r.1 as int == self@.minute,
            r.2 as int == self@.second,
            is_time_of_day(r.0 as int, r.1 as int, r.2 as int),
    {
        proof {
            use_type_invariant(self);
        }
        (self.hour, self.minute, self.second)
    }
}

} // verus!
