//! Date and timestamp rendering.
//!
//! Timestamps are millisecond counts since the Unix epoch and can be
//! rendered three ways; dates are day counts since 1970-01-01. The
//! calendar text itself comes from the `chrono` crate and is named, not
//! restated, here.
use vstd::prelude::*;

use crate::settings::{Settings, TimestampRendering};
use crate::value::{JsonV, JsonValue};

verus! {

/// Ticks (100-nanosecond units) between 0001-01-01T00:00:00 and the
/// Unix epoch.
pub const TICKS_TILL_UNIX_TIME: u64 = 621355968000000000u64;

/// What `chrono` renders, with its `%Y-%m-%d` format (`YYYY-MM-DD` for
/// years of four digits), for the calendar day `days` days after
/// 1970-01-01; `None` when the day is outside the representable
/// calendar range.
pub uninterp spec fn date_render_of(days: int) -> Option<Seq<char>>;

/// What `chrono` renders, as ISO-8601 text with six fractional digits
/// and a trailing `Z`, for the instant `secs` seconds plus `nanos`
/// nanoseconds after the Unix epoch; `None` when the instant is outside
/// the representable calendar range.
pub uninterp spec fn iso_render_of(secs: int, nanos: int) -> Option<Seq<char>>;

/// Relies on chrono's `NaiveDate::from_ymd_opt`, `checked_add_signed`
/// and `format("%Y-%m-%d")`: the rendering is a function of the day
/// count alone, and is `None` exactly when the sum leaves the calendar
/// range.
#[verifier::external_body]
fn render_date(days: u32) -> (r: Option<String>)
    ensures
        match r {
            Option::Some(t) => date_render_of(days as int) == Option::Some(t@),
            Option::None => date_render_of(days as int) == Option::<Seq<char>>::None,
        },
{
    chrono::NaiveDate::from_ymd_opt(1970, 1, 1)
        .and_then(|base| base.checked_add_signed(chrono::Duration::days(days as i64)))
        .map(|date| date.format("%Y-%m-%d").to_string())
}

/// Relies on chrono's `DateTime::from_timestamp` and
/// `format("%Y-%m-%dT%H:%M:%S.%6fZ")`: the rendering is a function of
/// the two arguments alone, and is `None` exactly when the instant
/// cannot be represented.
#[verifier::external_body]
fn render_iso(secs: i64, nanos: u32) -> (r: Option<String>)
    ensures
        match r {
            Option::Some(t) => iso_render_of(secs as int, nanos as int) == Option::Some(t@),
            Option::None => iso_render_of(secs as int, nanos as int) == Option::<Seq<char>>::None,
        },
{
    chrono::DateTime::from_timestamp(secs, nanos)
        .map(|dt| dt.naive_utc().format("%Y-%m-%dT%H:%M:%S.%6fZ").to_string())
}

/// A raw timestamp clamped to the non-negative signed range: a value
/// that would read as negative in 64-bit signed arithmetic becomes 0.
pub open spec fn clamped_ms(ms: int) -> int {
    if ms >= 0x8000000000000000 {
        0
    } else {
        ms
    }
}

/// The JSON value a millisecond timestamp maps to under the chosen
/// rendering: `Ticks` turns it into 100-nanosecond units since
/// 0001-01-01 (null on 64-bit overflow), `IsoStr` into calendar text
/// (null when unrepresentable), `UnixMs` into the count itself.
pub open spec fn ts_value(s: Settings, ms: int) -> JsonV {
    let t = clamped_ms(ms);
    match s.timestamp_rendering {
        TimestampRendering::Ticks => if 10000 * t + TICKS_TILL_UNIX_TIME <= i64::MAX {
            JsonV::Int(10000 * t + TICKS_TILL_UNIX_TIME)
        } else {
            JsonV::Null
        },
        TimestampRendering::IsoStr => match iso_render_of(t / 1000, (t % 1000) * 1000000) {
            Option::Some(txt) => JsonV::Str(txt),
            Option::None => JsonV::Null,
        },
        TimestampRendering::UnixMs => JsonV::Int(t),
    }
}

/// The JSON value a date maps to: its calendar text, or null when the
/// day count leaves the representable range.
pub open spec fn date_value(days: int) -> JsonV {
    match date_render_of(days) {
        Option::Some(txt) => JsonV::Str(txt),
        Option::None => JsonV::Null,
    }
}

/// Renders a raw millisecond timestamp under the chosen rendering.
pub fn timestamp_to_value(settings: &Settings, ts: u64) -> (r: JsonValue)
    ensures
        r.jv() == ts_value(*settings, ts as int),
{
    let t: u64 = if ts > 0x7fffffffffffffffu64 {
        0
    } else {
        ts
    };
    match settings.timestamp_rendering {
        TimestampRendering::Ticks => {
            if t <= (0x7fffffffffffffffu64 - TICKS_TILL_UNIX_TIME) / 10000 {
                JsonValue::Int((t * 10000 + TICKS_TILL_UNIX_TIME) as i64)
            } else {
                JsonValue::Null
            }
        },
        TimestampRendering::IsoStr => {
            let secs = (t / 1000) as i64;
            let nanos = ((t % 1000) * 1000000) as u32;
            match render_iso(secs, nanos) {
                Option::Some(txt) => JsonValue::Str(txt),
                Option::None => JsonValue::Null,
            }
        },
        TimestampRendering::UnixMs => JsonValue::Int(t as i64),
    }
}

/// Renders a date given as days since 1970-01-01.
pub fn date_to_value(days: u32) -> (r: JsonValue)
    ensures
        r.jv() == date_value(days as int),
{
    match render_date(days) {
        Option::Some(txt) => JsonValue::Str(txt),
        Option::None => JsonValue::Null,
    }
}

} // verus!
