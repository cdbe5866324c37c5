//! Timestamps in requests: milliseconds since the Unix epoch, checked
//! against the range `chrono` can represent.
use vstd::prelude::*;
use crate::error::{ApiError, fails_with};

verus! {

/// The first millisecond `chrono` can represent: -262143-01-01T00:00:00Z
/// (`DateTime::<Utc>::MIN_UTC`), in milliseconds since the Unix epoch.
pub open spec fn min_utc_millis() -> int {
    -8_334_601_228_800_000
}

/// The last millisecond `chrono` can represent: +262142-12-31T23:59:59.999Z
/// (`DateTime::<Utc>::MAX_UTC`), in milliseconds since the Unix epoch.
pub open spec fn max_utc_millis() -> int {
    8_210_266_876_799_999
}

/// `chrono` can represent the instant `ms` milliseconds after the Unix
/// epoch: it lies between `MIN_UTC` and `MAX_UTC`.
pub open spec fn chrono_millis_valid(ms: i64) -> bool {
    min_utc_millis() <= ms <= max_utc_millis()
}

/// Calls `chrono::DateTime::<Utc>::from_timestamp_millis` and says whether
/// it gave a date. In chrono's source the call splits `ms` into days and
/// the time of day and gives a date exactly when the day lies between
/// `NaiveDate::MIN` (-262143-01-01) and `NaiveDate::MAX` (+262142-12-31);
/// the contract states that interval in milliseconds.
#[verifier::external_body]
fn millis_representable(ms: i64) -> (r: bool)
    ensures
        r == chrono_millis_valid(ms),
{
    chrono::DateTime::<chrono::Utc>::from_timestamp_millis(ms).is_some()
}

/// The timestamp when it can be represented, else the invalid-input error
/// `msg`.
pub fn accept_timestamp(ms: i64, representable: bool, msg: &str) -> (r: Result<i64, ApiError>)
    ensures
        representable ==> r == Ok::<i64, ApiError>(ms),
        !representable ==> fails_with(r, msg@),
{
    if representable {
        Ok(ms)
    } else {
        Err(ApiError::invalid_input(msg))
    }
}

/// The birthdate of a sign-up, in milliseconds: it must fit in an `i64`
/// and be representable, else `invalid birthdate timestamp`.
pub fn birthdate_millis(birthdate: u64) -> (r: Result<i64, ApiError>)
    ensures
        birthdate > i64::MAX ==> fails_with(r, "invalid birthdate timestamp"@),
        birthdate <= i64::MAX && chrono_millis_valid(birthdate as i64) ==> r == Ok::<
            i64,
            ApiError,
        >(birthdate as i64),
        birthdate <= i64::MAX && !chrono_millis_valid(birthdate as i64) ==> fails_with(
            r,
            "invalid birthdate timestamp"@,
        ),
{
    if birthdate > 0x7fff_ffff_ffff_ffffu64 {
        return Err(ApiError::invalid_input("invalid birthdate timestamp"));
    }
    let ms = birthdate as i64;
    accept_timestamp(ms, millis_representable(ms), "invalid birthdate timestamp")
}

/// The release date of a new chapter, in milliseconds, when it has one: it
/// must fit in an `i64` and be representable, else
/// `Invalid release_date timestamp`.
pub fn new_release_millis(value: Option<u64>) -> (r: Result<Option<i64>, ApiError>)
    ensures
        match value {
            None => r == Ok::<Option<i64>, ApiError>(None),
            Some(v) => if v <= i64::MAX && chrono_millis_valid(v as i64) {
                r == Ok::<Option<i64>, ApiError>(Some(v as i64))
            } else {
                fails_with(r, "Invalid release_date timestamp"@)
            },
        },
{
    match value {
        None => Ok(None),
        Some(v) => {
            if v > 0x7fff_ffff_ffff_ffffu64 {
                return Err(ApiError::invalid_input("Invalid release_date timestamp"));
            }
            let ms = v as i64;
            match accept_timestamp(ms, millis_representable(ms), "Invalid release_date timestamp") {
                Ok(t) => Ok(Some(t)),
                Err(e) => Err(e),
            }
        },
    }
}

/// The release date of a chapter edit, in milliseconds. The value is taken
/// as an `i64` the way `as` does (values past `i64::MAX` wrap to negative
/// instants); unrepresentable instants give
/// `Invalid release_date timestamp`.
pub fn release_date_millis(value: u64) -> (r: Result<i64, ApiError>)
    ensures
        chrono_millis_valid(value as i64) ==> r == Ok::<i64, ApiError>(value as i64),
        !chrono_millis_valid(value as i64) ==> fails_with(r, "Invalid release_date timestamp"@),
{
    let ms = value as i64;
    accept_timestamp(ms, millis_representable(ms), "Invalid release_date timestamp")
}

/// The instant an RFC 3339 text names, as seconds since the Unix epoch and
/// the nanoseconds within that second; `None` when the text is no RFC 3339
/// date-time.
pub uninterp spec fn rfc3339_instant(s: Seq<char>) -> Option<(i64, u32)>;

/// Calls `chrono::DateTime::parse_from_rfc3339` and reads the instant back
/// with `timestamp` and `timestamp_subsec_nanos`. The grammar of RFC 3339
/// takes pages to state, so the answer is named.
#[verifier::external_body]
fn parse_rfc3339(s: &str) -> (r: Option<(i64, u32)>)
    ensures
        r == rfc3339_instant(s@),
{
    match chrono::DateTime::parse_from_rfc3339(s) {
        Ok(d) => Some((d.timestamp(), d.timestamp_subsec_nanos())),
        Err(_) => None,
    }
}

/// The release date of a restored chapter: the instant of its RFC 3339
/// text, dropped when there is none or it does not parse.
pub fn parse_release_date(value: Option<String>) -> (r: Option<(i64, u32)>)
    ensures
        match value {
            None => r is None,
            Some(raw) => r == rfc3339_instant(raw@),
        },
{
    match value {
        None => None,
        Some(raw) => parse_rfc3339(raw.as_str()),
    }
}

} // verus!
