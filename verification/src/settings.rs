//! Per-run configuration for the converter.
use vstd::prelude::*;

verus! {

/// How a timestamp value (milliseconds since the Unix epoch) is rendered.
#[derive(Debug, Copy, Clone, Eq, PartialEq, Structural)]
pub enum TimestampRendering {
    /// 100-nanosecond ticks since 0001-01-01T00:00:00.
    Ticks,
    /// ISO-8601 text with six fractional digits and a trailing `Z`.
    IsoStr,
    /// The millisecond count itself, as a JSON integer.
    UnixMs,
}

/// Immutable settings for one conversion run.
#[derive(Debug, Clone)]
pub struct Settings {
    /// Drop object entries whose mapped value is null.
    pub omit_nulls: bool,
    /// Turn a group or map that mapped to an empty object into null.
    pub omit_empty_bags: bool,
    /// Turn a list that mapped to an empty array into null.
    pub omit_empty_lists: bool,
    /// Chosen rendering for timestamp fields.
    pub timestamp_rendering: TimestampRendering,
    /// Requested top-level columns, in order; `None` means all columns.
    pub columns: Option<Vec<String>>,
    /// Emit CSV rows instead of JSON lines.
    pub csv: bool,
    /// Reinterpret an unsigned 64-bit value as its two's-complement signed equivalent.
    pub convert_types: bool,
}

} // verus!
