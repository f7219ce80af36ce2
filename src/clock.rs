//! Wall-clock timestamps at the fixed offset used in reports.
use vstd::prelude::*;

verus! {

/// Offset of report timestamps from UTC, in seconds (UTC+8).
pub const UTC_OFFSET_SECS: i32 = 8 * 3600;

/// Earliest instant that is formatted: 0001-01-01 00:00:00 UTC, in seconds
/// since the Unix epoch.
pub const FIRST_FORMATTED_SECS: i64 = -62_135_596_800;

/// Latest instant that is formatted: 9999-12-31 23:59:59 UTC, in seconds
/// since the Unix epoch.
pub const LAST_FORMATTED_SECS: i64 = 253_402_300_799;

/// The text of the instant `secs` seconds after the Unix epoch, at
/// `offset_secs` from UTC, in the form `%Y-%m-%d %H:%M:%S`. It depends on
/// these two numbers alone: no locale and no host time zone enter it.
pub uninterp spec fn timestamp_at(secs: int, offset_secs: int) -> Seq<char>;

/// A reading of the system clock: whole seconds and nanoseconds after the
/// Unix epoch (`Ok`), or before it (`Err`).
pub type ClockReading = Result<(u64, u32), (u64, u32)>;

/// The reading in whole seconds since the Unix epoch, rounded down.
pub open spec fn reading_secs(reading: ClockReading) -> int {
    match reading {
        Ok((secs, _)) => secs as int,
        Err((secs, nanos)) => if nanos > 0 {
            -(secs as int) - 1
        } else {
            -(secs as int)
        },
    }
}

/// `c` is an ASCII decimal digit.
pub open spec fn is_digit(c: char) -> bool {
    '0' <= c && c <= '9'
}

/// A year as the report writes it: four digits, or `+` and at least five
/// digits past 9999.
pub open spec fn is_year(y: Seq<char>) -> bool {
    ||| y.len() == 4 && forall|i: int| 0 <= i < 4 ==> is_digit(#[trigger] y[i])
    ||| y.len() >= 6 && y[0] == '+' && forall|i: int| 1 <= i < y.len() ==> is_digit(#[trigger] y[i])
}

/// `s` has the shape `YYYY-MM-DD HH:MM:SS`.
pub open spec fn is_timestamp(s: Seq<char>) -> bool {
    s.len() >= 19 && {
        let n = s.len() - 15;
        &&& is_year(s.take(n))
        &&& s[n] == '-' && is_digit(s[n + 1]) && is_digit(s[n + 2])
        &&& s[n + 3] == '-' && is_digit(s[n + 4]) && is_digit(s[n + 5])
        &&& s[n + 6] == ' ' && is_digit(s[n + 7]) && is_digit(s[n + 8])
        &&& s[n + 9] == ':' && is_digit(s[n + 10]) && is_digit(s[n + 11])
        &&& s[n + 12] == ':' && is_digit(s[n + 13]) && is_digit(s[n + 14])
    }
}

/// std's system clock instant, carried through unopened.
#[verifier::external_type_specification]
#[verifier::external_body]
pub struct ExSystemTime(std::time::SystemTime);

/// std's error for an instant before the one asked about, carried through
/// unopened.
#[verifier::external_type_specification]
#[verifier::external_body]
pub struct ExSystemTimeError(std::time::SystemTimeError);

/// Relies on std's `SystemTime::now`: the current reading of the system
/// clock.
#[verifier::external_body]
fn system_now() -> std::time::SystemTime {
    std::time::SystemTime::now()
}

/// Relies on std's `SystemTime::duration_since`, taken from the Unix epoch:
/// the time elapsed since the epoch, or an error when `t` is earlier.
#[verifier::external_body]
fn elapsed_since_epoch(t: &std::time::SystemTime) -> Result<
    std::time::Duration,
    std::time::SystemTimeError,
> {
    t.duration_since(std::time::UNIX_EPOCH)
}

/// Relies on std's `SystemTimeError::duration`: how far the instant lies
/// before the epoch.
#[verifier::external_body]
fn error_duration(e: &std::time::SystemTimeError) -> std::time::Duration {
    e.duration()
}

/// Relies on std's `Duration::as_secs`: the whole seconds of `d`.
#[verifier::external_body]
fn whole_seconds(d: &std::time::Duration) -> u64 {
    d.as_secs()
}

/// Relies on std's `Duration::subsec_nanos`: the fraction of a second of `d`
/// in nanoseconds, always below one billion.
#[verifier::external_body]
fn fraction_nanos(d: &std::time::Duration) -> (r: u32)
    ensures
        r < 1_000_000_000,
{
    d.subsec_nanos()
}

/// The current reading of the system clock, after or before the epoch.
fn clock_reading() -> (r: ClockReading)
    ensures
        match r {
            Ok((_, nanos)) => nanos < 1_000_000_000,
            Err((_, nanos)) => nanos < 1_000_000_000,
        },
{
    let now = system_now();
    match elapsed_since_epoch(&now) {
        Ok(after) => Ok((whole_seconds(&after), fraction_nanos(&after))),
        Err(before) => {
            let d = error_duration(&before);
            Err((whole_seconds(&d), fraction_nanos(&d)))
        },
    }
}

/// Relies on chrono's `DateTime::from_timestamp`, `FixedOffset::east_opt`,
/// `with_timezone` and `format`: the instant `secs` seconds after the Unix
/// epoch, at `offset_secs` from UTC, written `%Y-%m-%d %H:%M:%S`.
/// `from_timestamp` returns `None` only for a day count outside chrono's date
/// range, and `east_opt` only outside the open range of one day, both of
/// which `requires` leaves out. The year is written as four digits from 0 to
/// 9999 and with a `+` sign after; the other fields as two digits each.
#[verifier::external_body]
fn format_at_offset(secs: i64, offset_secs: i32) -> (r: Option<String>)
    requires
        FIRST_FORMATTED_SECS <= secs <= LAST_FORMATTED_SECS,
        -86_400 < offset_secs < 86_400,
    ensures
        r is Some,
        r.unwrap()@ == timestamp_at(secs as int, offset_secs as int),
        is_timestamp(r.unwrap()@),
        secs + offset_secs <= LAST_FORMATTED_SECS ==> r.unwrap()@.len() == 19,
{
    match chrono::DateTime::from_timestamp(secs, 0) {
        Some(utc) => {
            let offset = chrono::FixedOffset::east_opt(offset_secs).unwrap();
            Some(utc.with_timezone(&offset).format("%Y-%m-%d %H:%M:%S").to_string())
        },
        None => None,
    }
}

/// The report's text for the instant `secs` seconds after the Unix epoch: the
/// wall-clock time at UTC+8, whatever the host's time zone. `None` outside
/// the years 1 to 9999 (UTC).
pub fn format_report_time(secs: i64) -> (r: Option<String>)
    ensures
        r is Some <==> FIRST_FORMATTED_SECS <= secs <= LAST_FORMATTED_SECS,
        r matches Some(s) ==> s@ == timestamp_at(secs as int, UTC_OFFSET_SECS as int)
            && is_timestamp(s@),
        r matches Some(s) ==> (secs + UTC_OFFSET_SECS <= LAST_FORMATTED_SECS ==> s@.len() == 19),
{
    if FIRST_FORMATTED_SECS <= secs && secs <= LAST_FORMATTED_SECS {
        format_at_offset(secs, UTC_OFFSET_SECS)
    } else {
        None
    }
}

/// The report's text for a clock reading, taken to the whole second below.
pub fn report_time_from_reading(reading: ClockReading) -> (r: Option<String>)
    ensures
        r is Some <==> FIRST_FORMATTED_SECS <= reading_secs(reading) <= LAST_FORMATTED_SECS,
        r matches Some(s) ==> s@ == timestamp_at(reading_secs(reading), UTC_OFFSET_SECS as int)
            && is_timestamp(s@),
        r matches Some(s) ==> (reading_secs(reading) + UTC_OFFSET_SECS <= LAST_FORMATTED_SECS
            ==> s@.len() == 19),
{
    match reading {
        Ok((secs, _)) => {
            assert(reading_secs(reading) == secs as int);
            if secs <= LAST_FORMATTED_SECS as u64 {
                format_report_time(secs as i64)
            } else {
                None
            }
        },
        Err((secs, nanos)) => {
            let below: u64 = if nanos > 0 {
                1
            } else {
                0
            };
            assert(reading_secs(reading) == -(secs as int) - below as int);
            if secs <= (-FIRST_FORMATTED_SECS) as u64 - below {
                format_report_time(-(secs as i64) - below as i64)
            } else {
                None
            }
        },
    }
}

/// The current wall-clock time at UTC+8, independent of the host's time
/// zone; `None` when the system clock reads outside the years 1 to 9999.
pub fn return_time() -> (r: Option<String>)
    ensures
        r matches Some(s) ==> is_timestamp(s@) && exists|t: int|
            FIRST_FORMATTED_SECS <= t <= LAST_FORMATTED_SECS && s@ == timestamp_at(
                t,
                UTC_OFFSET_SECS as int,
            ),
{
    report_time_from_reading(clock_reading())
}

} // verus!
