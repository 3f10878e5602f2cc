//! Conversion of key-node timestamps.
//!
//! A key node's last-write time is stored as a 64-bit Windows file time:
//! hundred-nanosecond intervals since 1601-01-01 00:00:00 UTC.  The split
//! into Unix seconds and nanoseconds is computed and verified here; a
//! calendar library can take it from there.

use vstd::prelude::*;

verus! {

/// Seconds between the Windows file-time epoch (1601-01-01) and the Unix
/// epoch (1970-01-01).
pub const EPOCH_DIFF_SECS: u64 = 11_644_473_600;

/// The Unix seconds of a Windows file time (negative before 1970).
pub open spec fn spec_filetime_secs(ft: u64) -> int {
    ft / 10_000_000 - 11_644_473_600
}

/// The subsecond part of a Windows file time, in nanoseconds.
pub open spec fn spec_filetime_nanos(ft: u64) -> int {
    (ft % 10_000_000) * 100
}

/// Splits a Windows file time into Unix seconds and subsecond
/// nanoseconds.
pub fn filetime_to_unix(ft: u64) -> (r: (i64, u32))
    ensures
        r.0 == spec_filetime_secs(ft),
        r.1 == spec_filetime_nanos(ft),
{
    let secs_from_1601 = ft / 10_000_000;
    let nanos = ((ft % 10_000_000) as u32) * 100;
    ((secs_from_1601 as i64) - 11_644_473_600i64, nanos)
}

} // verus!
