//! Unix timestamp conversion: proleptic Gregorian calendar arithmetic over
//! the supported range, ISO-8601 rendering, relative-time phrasing, and the
//! derived epoch counters. Only the local-zone offset and the current time
//! come from the outside, through trusted wrappers; everything computed from
//! them is verified.

use vstd::prelude::*;

use chrono::Offset;
use chrono::TimeZone;

use crate::error::ToolError;
use crate::strutil::{
    chars_to_string, digit_char, int_literal_val, is_int_literal, parse_i64, spec_decimal,
    spec_decimal2, u64_digits,
};

verus! {

/// The last supported second: 9999-12-31T23:59:59Z.
pub const MAX_TIMESTAMP: u64 = 253_402_300_799;

/// Whether the year has a 29th of February.
pub open spec fn is_leap_year(y: int) -> bool {
    y % 4 == 0 && (y % 100 != 0 || y % 400 == 0)
}

/// Days in the year.
pub open spec fn days_in_year(y: int) -> int {
    if is_leap_year(y) {
        366
    } else {
        365
    }
}

/// Days in the month (1 through 12) of the year.
pub open spec fn days_in_month(y: int, m: int) -> int {
    if m == 2 {
        if is_leap_year(y) {
            29
        } else {
            28
        }
    } else if m == 4 || m == 6 || m == 9 || m == 11 {
        30
    } else {
        31
    }
}

/// Days from 1970-01-01 to the first day of the year, for years from 1970 on.
pub open spec fn days_before_year(y: int) -> int
    decreases y - 1970,
{
    if y <= 1970 {
        0
    } else {
        days_before_year(y - 1) + days_in_year(y - 1)
    }
}

/// Days from the first day of the year to the first day of the month.
pub open spec fn days_before_month(y: int, m: int) -> int
    decreases m,
{
    if m <= 1 {
        0
    } else {
        days_before_month(y, m - 1) + days_in_month(y, m - 1)
    }
}

/// The day number (days since 1970-01-01) of a calendar date.
pub open spec fn days_from_civil(y: int, m: int, d: int) -> int {
    days_before_year(y) + days_before_month(y, m) + d - 1
}

/// Whether the triple is a real calendar date in the supported range.
pub open spec fn valid_date(y: int, m: int, d: int) -> bool {
    1970 <= y && 1 <= m <= 12 && 1 <= d <= days_in_month(y, m)
}

/// The days before the months of one year sum to the length of the year.
proof fn lemma_days_before_month_full(y: int)
    ensures
        days_before_month(y, 13) == days_in_year(y),
{
    reveal_with_fuel(days_before_month, 14);
}

/// `days_before_month` grows with the month.
proof fn lemma_days_before_month_mono(y: int, a: int, b: int)
    requires
        1 <= a <= b <= 13,
    ensures
        days_before_month(y, a) <= days_before_month(y, b),
    decreases b - a,
{
    if a < b {
        lemma_days_before_month_mono(y, a, b - 1);
    }
}

/// At least 365 days pass per year since the epoch.
proof fn lemma_days_before_year_lower(y: int)
    requires
        y >= 1970,
    ensures
        days_before_year(y) >= 365 * (y - 1970),
    decreases y - 1970,
{
    if y > 1970 {
        lemma_days_before_year_lower(y - 1);
    }
}

/// The calendar date of a day number: year, month, day, and 1-based ordinal
/// day of the year.
pub fn civil_from_days(days: u64) -> (r: (u64, u64, u64, u64))
    requires
        days <= 2_932_896,
    ensures
        valid_date(r.0 as int, r.1 as int, r.2 as int),
        days_from_civil(r.0 as int, r.1 as int, r.2 as int) == days,
        r.3 == days + 1 - days_before_year(r.0 as int),
{
    let mut y: u64 = 1970;
    let mut dd: u64 = days;
    while dd >= days_in_year_exec(y)
        invariant
            1970 <= y,
            days_before_year(y as int) + dd == days,
            days <= 2_932_896,
        decreases dd,
    {
        proof {
            lemma_days_before_year_lower(y as int);
        }
        dd = dd - days_in_year_exec(y);
        y = y + 1;
    }
    let doy: u64 = dd + 1;
    let mut m: u64 = 1;
    proof {
        lemma_days_before_month_full(y as int);
    }
    while dd >= days_in_month_exec(y, m)
        invariant
            1970 <= y,
            1 <= m <= 12,
            days_before_year(y as int) + doy == days + 1,
            days_before_year(y as int) + days_before_month(y as int, m as int) + dd == days,
            dd < days_in_year(y as int) - days_before_month(y as int, m as int),
            days_before_month(y as int, 13) == days_in_year(y as int),
            days <= 2_932_896,
        decreases 12 - m,
    {
        proof {
            if m == 12 {
                assert(days_before_month(y as int, 13) == days_before_month(y as int, 12)
                    + days_in_month(y as int, 12));
            } else {
                lemma_days_before_month_mono(y as int, m as int + 2, 13);
                assert(days_before_month(y as int, m as int + 1) == days_before_month(
                    y as int,
                    m as int,
                ) + days_in_month(y as int, m as int));
            }
        }
        dd = dd - days_in_month_exec(y, m);
        m = m + 1;
    }
    (y, m, dd + 1, doy)
}

/// Days in the year, executable.
pub fn days_in_year_exec(y: u64) -> (r: u64)
    ensures
        r == days_in_year(y as int),
{
    if is_leap_year_exec(y) {
        366
    } else {
        365
    }
}

/// Whether the year is a leap year, executable.
pub fn is_leap_year_exec(y: u64) -> (r: bool)
    ensures
        r == is_leap_year(y as int),
{
    y % 4 == 0 && (y % 100 != 0 || y % 400 == 0)
}

/// Days in the month of the year, executable.
pub fn days_in_month_exec(y: u64, m: u64) -> (r: u64)
    ensures
        r == days_in_month(y as int, m as int),
{
    if m == 2 {
        if is_leap_year_exec(y) {
            29
        } else {
            28
        }
    } else if m == 4 || m == 6 || m == 9 || m == 11 {
        30
    } else {
        31
    }
}

/// A calendar date with a time of day.
#[derive(Clone, Copy, Debug, PartialEq, Eq, Structural)]
pub struct CivilDateTime {
    pub year: u64,
    pub month: u64,
    pub day: u64,
    pub hour: u64,
    pub minute: u64,
    pub second: u64,
}

/// Whether the fields are the calendar reading of the given second count.
pub open spec fn datetime_of(ts: int, c: CivilDateTime) -> bool {
    &&& valid_date(c.year as int, c.month as int, c.day as int)
    &&& days_from_civil(c.year as int, c.month as int, c.day as int) == ts / 86400
    &&& c.hour == (ts % 86400) / 3600
    &&& c.minute == ((ts % 86400) % 3600) / 60
    &&& c.second == ts % 60
}

/// "YYYY-MM-DDTHH:MM:SS" over the given fields.
pub open spec fn spec_datetime_chars(c: CivilDateTime) -> Seq<char> {
    spec_decimal(c.year as nat) + seq!['-'] + spec_decimal2(c.month as nat) + seq!['-']
        + spec_decimal2(c.day as nat) + seq!['T'] + spec_decimal2(c.hour as nat) + seq![':']
        + spec_decimal2(c.minute as nat) + seq![':'] + spec_decimal2(c.second as nat)
}

/// "+HH:MM" or "-HH:MM" for a zone offset given in seconds.
pub open spec fn spec_offset_suffix(off: int) -> Seq<char> {
    if off < 0 {
        seq!['-'] + spec_decimal2(((-off) / 3600) as nat) + seq![':'] + spec_decimal2(
            ((((-off) % 3600) / 60)) as nat,
        )
    } else {
        seq!['+'] + spec_decimal2((off / 3600) as nat) + seq![':'] + spec_decimal2(
            (((off % 3600) / 60)) as nat,
        )
    }
}

/// Appends the two-digit zero-padded decimal rendering of a value below one
/// hundred.
fn push_two_digits(out: &mut Vec<char>, n: u64)
    requires
        n < 100,
    ensures
        final(out)@ == old(out)@ + spec_decimal2(n as nat),
{
    if n < 10 {
        out.push('0');
        out.push(digit_char(n));
        proof {
            assert(final(out)@ =~= old(out)@ + spec_decimal2(n as nat));
        }
    } else {
        out.push(digit_char(n / 10));
        out.push(digit_char(n % 10));
        proof {
            assert(spec_decimal(n as nat) == spec_decimal((n / 10) as nat) + seq![
                crate::strutil::dec_digit((n % 10) as int),
            ]);
            assert(final(out)@ =~= old(out)@ + spec_decimal2(n as nat));
        }
    }
}

/// The "YYYY-MM-DDTHH:MM:SS" rendering of the fields.
fn datetime_chars(c: &CivilDateTime) -> (r: Vec<char>)
    requires
        c.month < 100,
        c.day < 100,
        c.hour < 100,
        c.minute < 100,
        c.second < 100,
    ensures
        r@ == spec_datetime_chars(*c),
{
    let mut out = u64_digits(c.year);
    out.push('-');
    push_two_digits(&mut out, c.month);
    out.push('-');
    push_two_digits(&mut out, c.day);
    out.push('T');
    push_two_digits(&mut out, c.hour);
    out.push(':');
    push_two_digits(&mut out, c.minute);
    out.push(':');
    push_two_digits(&mut out, c.second);
    proof {
        assert(out@ =~= spec_datetime_chars(*c));
    }
    out
}

/// The calendar fields of a second count in the supported range.
fn civil_of_timestamp(ts: u64) -> (c: CivilDateTime)
    requires
        ts <= MAX_TIMESTAMP,
    ensures
        datetime_of(ts as int, c),
        c.month < 100 && c.day < 100 && c.hour < 100 && c.minute < 100 && c.second < 100,
{
    let days = ts / 86400;
    let rem = ts % 86400;
    let (y, m, d, _doy) = civil_from_days(days);
    proof {
        lemma_days_before_month_mono(y as int, 1, m as int);
    }
    CivilDateTime {
        year: y,
        month: m,
        day: d,
        hour: rem / 3600,
        minute: (rem % 3600) / 60,
        second: ts % 60,
    }
}

/// The phrase describing how far the timestamp lies from the given moment:
/// "in N seconds" for a future timestamp, otherwise the largest whole unit
/// followed by "ago".
pub open spec fn spec_relative(delta: int) -> Seq<char> {
    if delta < 0 {
        seq!['i', 'n', ' '] + spec_decimal((-delta) as nat) + seq![
            ' ',
            's',
            'e',
            'c',
            'o',
            'n',
            'd',
            's',
        ]
    } else if delta >= 86400 {
        spec_decimal((delta / 86400) as nat) + seq![' ', 'd', 'a', 'y', 's', ' ', 'a', 'g', 'o']
    } else if delta >= 3600 {
        spec_decimal((delta / 3600) as nat) + seq![' ', 'h', 'o', 'u', 'r', 's', ' ', 'a', 'g', 'o']
    } else if delta >= 60 {
        spec_decimal((delta / 60) as nat) + seq![
            ' ',
            'm',
            'i',
            'n',
            'u',
            't',
            'e',
            's',
            ' ',
            'a',
            'g',
            'o',
        ]
    } else {
        spec_decimal(delta as nat) + seq![' ', 's', 'e', 'c', 'o', 'n', 'd', 's', ' ', 'a', 'g', 'o']
    }
}

/// Appends every character of the slice.
fn push_all(out: &mut Vec<char>, cs: &[char])
    ensures
        final(out)@ == old(out)@ + cs@,
{
    let n = cs.len();
    let mut i: usize = 0;
    while i < n
        invariant
            i <= n == cs@.len(),
            out@ == old(out)@ + cs@.take(i as int),
        decreases n - i,
    {
        out.push(cs[i]);
        proof {
            assert(old(out)@ + cs@.take(i + 1) =~= (old(out)@ + cs@.take(i as int)).push(
                cs@[i as int],
            ));
        }
        i = i + 1;
    }
    proof {
        assert(cs@.take(n as int) =~= cs@);
    }
}

/// The relative-time phrase for a timestamp seen from the given moment.
fn relative_time_chars(ts: u64, now: i64) -> (r: Vec<char>)
    requires
        ts <= MAX_TIMESTAMP,
    ensures
        r@ == spec_relative(now - ts),
{
    let delta: i128 = now as i128 - ts as i128;
    let mut out: Vec<char> = Vec::new();
    if delta < 0 {
        let n: u64 = (-delta) as u64;
        push_all(&mut out, &['i', 'n', ' ']);
        let mut digits = u64_digits(n);
        out.append(&mut digits);
        push_all(&mut out, &[' ', 's', 'e', 'c', 'o', 'n', 'd', 's']);
        proof {
            assert(out@ =~= spec_relative(now - ts));
        }
    } else {
        let ds: u64 = delta as u64;
        if ds >= 86400 {
            let mut digits = u64_digits(ds / 86400);
            out.append(&mut digits);
            push_all(&mut out, &[' ', 'd', 'a', 'y', 's', ' ', 'a', 'g', 'o']);
        } else if ds >= 3600 {
            let mut digits = u64_digits(ds / 3600);
            out.append(&mut digits);
            push_all(&mut out, &[' ', 'h', 'o', 'u', 'r', 's', ' ', 'a', 'g', 'o']);
        } else if ds >= 60 {
            let mut digits = u64_digits(ds / 60);
            out.append(&mut digits);
            push_all(&mut out, &[' ', 'm', 'i', 'n', 'u', 't', 'e', 's', ' ', 'a', 'g', 'o']);
        } else {
            let mut digits = u64_digits(ds);
            out.append(&mut digits);
            push_all(&mut out, &[' ', 's', 'e', 'c', 'o', 'n', 'd', 's', ' ', 'a', 'g', 'o']);
        }
        proof {
            assert(out@ =~= spec_relative(now - ts));
        }
    }
    out
}

/// Everything the converter shows for one timestamp.
#[derive(Clone, Debug)]
pub struct TimestampRecord {
    /// The calendar reading of the timestamp in UTC.
    pub utc: CivilDateTime,
    /// "YYYY-MM-DDTHH:MM:SSZ".
    pub utc_string: String,
    /// The calendar reading in the local zone, absent when the shifted
    /// instant leaves the supported range.
    pub local: Option<CivilDateTime>,
    /// "YYYY-MM-DDTHH:MM:SS" plus a "+HH:MM" or "-HH:MM" suffix.
    pub local_string: Option<String>,
    /// How far the timestamp lies from now.
    pub relative: String,
    /// Whole days since 1970-01-01T00:00:00Z.
    pub days_since_epoch: u64,
    /// Whole months since January 1970: a year-and-month difference.
    pub months_since_epoch: u64,
    /// The 1-based ordinal of the day within its year.
    pub day_of_year: u64,
}

/// The record for a timestamp, computed from a zone offset and a current
/// time handed in by the caller.
pub fn describe_timestamp(ts: u64, offset_seconds: i64, now: i64) -> (r: TimestampRecord)
    requires
        ts <= MAX_TIMESTAMP,
        -86400 < offset_seconds < 86400,
    ensures
        datetime_of(ts as int, r.utc),
        r.utc_string@ == spec_datetime_chars(r.utc) + seq!['Z'],
        r.days_since_epoch == ts as int / 86400,
        r.months_since_epoch == (r.utc.year - 1970) * 12 + (r.utc.month - 1),
        r.day_of_year == ts as int / 86400 + 1 - days_before_year(r.utc.year as int),
        r.relative@ == spec_relative(now - ts),
        r.local is Some <==> 0 <= ts + offset_seconds <= MAX_TIMESTAMP,
        match (r.local, r.local_string) {
            (Some(l), Some(ls)) => datetime_of(ts + offset_seconds, l) && ls@
                == spec_datetime_chars(l) + spec_offset_suffix(offset_seconds as int),
            (None, None) => true,
            _ => false,
        },
{
    let utc = civil_of_timestamp(ts);
    let mut utc_chars = datetime_chars(&utc);
    utc_chars.push('Z');
    let utc_string = chars_to_string(&utc_chars);
    let days = ts / 86400;
    let (y, m, _d, doy) = civil_from_days(days);
    proof {
        // The two calendar computations agree: `days_from_civil` is pinned for
        // both, and the year determines the month range.
        lemma_civil_unique(
            y as int,
            m as int,
            _d as int,
            utc.year as int,
            utc.month as int,
            utc.day as int,
        );
        lemma_days_before_month_mono(utc.year as int, 1, utc.month as int);
        lemma_days_before_year_lower(utc.year as int);
    }
    let months = (utc.year - 1970) * 12 + (utc.month - 1);
    let relative = chars_to_string(&relative_time_chars(ts, now));
    let shifted: i64 = ts as i64 + offset_seconds;
    let (local, local_string): (Option<CivilDateTime>, Option<String>) = if 0 <= shifted && shifted
        as u64 <= MAX_TIMESTAMP {
        let l = civil_of_timestamp(shifted as u64);
        let mut l_chars = datetime_chars(&l);
        let off_abs: u64 = if offset_seconds < 0 {
            (-offset_seconds) as u64
        } else {
            offset_seconds as u64
        };
        l_chars.push(if offset_seconds < 0 {
            '-'
        } else {
            '+'
        });
        push_two_digits(&mut l_chars, off_abs / 3600);
        l_chars.push(':');
        push_two_digits(&mut l_chars, (off_abs % 3600) / 60);
        proof {
            assert(l_chars@ =~= spec_datetime_chars(l) + spec_offset_suffix(
                offset_seconds as int,
            ));
        }
        (Some(l), Some(chars_to_string(&l_chars)))
    } else {
        (None, None)
    };
    TimestampRecord {
        utc,
        utc_string,
        local,
        local_string,
        relative,
        days_since_epoch: days,
        months_since_epoch: months,
        day_of_year: doy,
    }
}

/// A day number determines its calendar date: two valid dates with the same
/// day number are equal.
proof fn lemma_civil_unique(y1: int, m1: int, d1: int, y2: int, m2: int, d2: int)
    requires
        valid_date(y1, m1, d1),
        valid_date(y2, m2, d2),
        days_from_civil(y1, m1, d1) == days_from_civil(y2, m2, d2),
    ensures
        y1 == y2 && m1 == m2 && d1 == d2,
{
    lemma_civil_year_unique(y1, m1, d1, y2, m2, d2);
    lemma_civil_month_unique(y1, m1, d1, m2, d2);
}

/// Within-year offsets stay below the year's length.
proof fn lemma_within_year(y: int, m: int, d: int)
    requires
        valid_date(y, m, d),
    ensures
        0 <= days_before_month(y, m) + d - 1 < days_in_year(y),
{
    lemma_days_before_month_mono(y, 1, m);
    lemma_days_before_month_full(y);
    lemma_days_before_month_mono(y, m + 1, 13);
}

proof fn lemma_civil_year_unique(y1: int, m1: int, d1: int, y2: int, m2: int, d2: int)
    requires
        valid_date(y1, m1, d1),
        valid_date(y2, m2, d2),
        days_from_civil(y1, m1, d1) == days_from_civil(y2, m2, d2),
    ensures
        y1 == y2,
    decreases y1 + y2,
{
    lemma_within_year(y1, m1, d1);
    lemma_within_year(y2, m2, d2);
    if y1 < y2 {
        // The whole of year y1 lies before the first day of y2.
        lemma_days_before_year_mono_plus(y1 + 1, y2);
    } else if y2 < y1 {
        lemma_days_before_year_mono_plus(y2 + 1, y1);
    }
}

/// `days_before_year` is monotone.
proof fn lemma_days_before_year_mono_plus(a: int, b: int)
    requires
        1970 <= a <= b,
    ensures
        days_before_year(a) <= days_before_year(b),
    decreases b - a,
{
    if a < b {
        lemma_days_before_year_mono_plus(a, b - 1);
    }
}

proof fn lemma_civil_month_unique(y: int, m1: int, d1: int, m2: int, d2: int)
    requires
        valid_date(y, m1, d1),
        valid_date(y, m2, d2),
        days_before_month(y, m1) + d1 == days_before_month(y, m2) + d2,
    ensures
        m1 == m2 && d1 == d2,
{
    if m1 < m2 {
        lemma_days_before_month_mono(y, m1 + 1, m2);
    } else if m2 < m1 {
        lemma_days_before_month_mono(y, m2 + 1, m1);
    }
}

/// Relies on std's `SystemTime`: the current time as whole seconds since
/// the Unix epoch, negative when the clock stands before it. Nothing is
/// assumed of the clock's reading.
#[verifier::external_body]
pub(crate) fn now_timestamp() -> i64 {
    match std::time::SystemTime::now().duration_since(std::time::UNIX_EPOCH) {
        Ok(d) => i64::try_from(d.as_secs()).unwrap_or(i64::MAX),
        Err(e) => -i64::try_from(e.duration().as_secs()).unwrap_or(i64::MAX),
    }
}

/// Relies on chrono: the local time zone's UTC offset at the given instant,
/// in seconds. `FixedOffset` keeps every offset strictly within one day.
#[verifier::external_body]
pub(crate) fn local_offset_seconds(ts: u64) -> (r: i64)
    requires
        ts <= MAX_TIMESTAMP,
    ensures
        -86400 < r < 86400,
{
    let dt = chrono::Utc.timestamp_opt(ts as i64, 0).unwrap();
    dt.with_timezone(&chrono::Local).offset().fix().local_minus_utc() as i64
}

/// What the environment-dependent fields of a record carry under a zone
/// offset and a clock reading: exactly the shapes `describe_timestamp` pins.
pub open spec fn env_fields_of(rec: TimestampRecord, ts: int, off: int, now: int) -> bool {
    &&& -86400 < off < 86400
    &&& rec.relative@ == spec_relative(now - ts)
    &&& (rec.local is Some <==> 0 <= ts + off <= MAX_TIMESTAMP)
    &&& match (rec.local, rec.local_string) {
        (Some(l), Some(ls)) => datetime_of(ts + off, l) && ls@ == spec_datetime_chars(l)
            + spec_offset_suffix(off),
        (None, None) => true,
        _ => false,
    }
}

/// Converts the text of a Unix timestamp, as the converter tool does on a
/// click: the text must be a decimal second count between zero and
/// `MAX_TIMESTAMP`. Every field read from the input alone is pinned exactly;
/// the local reading and the relative phrase carry the shapes
/// `describe_timestamp` pins, under the machine's zone offset and clock
/// reading.
pub fn convert_timestamp(input: &str) -> (r: Result<TimestampRecord, ToolError>)
    ensures
        r is Ok <==> is_int_literal(input@) && 0 <= int_literal_val(input@) <= MAX_TIMESTAMP,
        match r {
            Ok(rec) => {
                let ts = int_literal_val(input@);
                &&& datetime_of(ts, rec.utc)
                &&& rec.utc_string@ == spec_datetime_chars(rec.utc) + seq!['Z']
                &&& rec.days_since_epoch == ts / 86400
                &&& rec.months_since_epoch == (rec.utc.year - 1970) * 12 + (rec.utc.month - 1)
                &&& rec.day_of_year == ts / 86400 + 1 - days_before_year(rec.utc.year as int)
                &&& exists|off: int, now: int| #[trigger] env_fields_of(rec, ts, off, now)
            },
            Err(e) => if is_int_literal(input@) && -0x8000_0000_0000_0000 <= int_literal_val(input@)
                <= 0x7fff_ffff_ffff_ffff {
                e == ToolError::InvalidInput
            } else {
                e == ToolError::InvalidNumber
            },
        },
{
    let v: i64 = match parse_i64(input) {
        Ok(v) => v,
        Err(e) => {
            return Err(e);
        },
    };
    if v < 0 || v as u64 > MAX_TIMESTAMP {
        return Err(ToolError::InvalidInput);
    }
    let ts = v as u64;
    let offset = local_offset_seconds(ts);
    let now = now_timestamp();
    let rec = describe_timestamp(ts, offset, now);
    proof {
        assert(env_fields_of(rec, ts as int, offset as int, now as int));
    }
    Ok(rec)
}

} // verus!
