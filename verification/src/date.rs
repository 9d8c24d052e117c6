//! SA17 calendar-date conversions.
//!
//! SA17 stores calendar dates as `u32` "SA-days". SA-day 4017 is the Unix
//! epoch (1970-01-01), so `unix_day = sa_day - 4017`. Only SA-days in the
//! plausible window `[SA_DAY_MIN_PLAUSIBLE, SA_DAY_MAX_PLAUSIBLE]` are
//! accepted as dates.

use vstd::prelude::*;

verus! {

/// SA-day to Unix-day offset: `unix_day = sa_day - DATE_EPOCH_DAYS_BEFORE_UNIX`.
pub const DATE_EPOCH_DAYS_BEFORE_UNIX: i64 = 4017;

/// Lower plausibility bound for SA-day values (SA-day 0 is a placeholder).
pub const SA_DAY_MIN_PLAUSIBLE: u32 = 1;

/// Upper plausibility bound for SA-day values (roughly the year 2200).
pub const SA_DAY_MAX_PLAUSIBLE: u32 = 80_000;

/// Whether `sa_day` lies in the plausible SA-day window.
pub open spec fn sa_day_plausible(sa_day: int) -> bool {
    SA_DAY_MIN_PLAUSIBLE <= sa_day <= SA_DAY_MAX_PLAUSIBLE
}

/// The Unix day of an SA-day, when the SA-day is plausible.
pub open spec fn spec_sa_day_to_unix_day(sa_day: int) -> Option<int> {
    if sa_day_plausible(sa_day) {
        Some(sa_day - DATE_EPOCH_DAYS_BEFORE_UNIX)
    } else {
        None
    }
}

/// The SA-day of a Unix day, when it lies in the plausible window.
pub open spec fn spec_unix_day_to_sa_day(unix_day: int) -> Option<int> {
    let v = unix_day + DATE_EPOCH_DAYS_BEFORE_UNIX;
    if sa_day_plausible(v) {
        Some(v)
    } else {
        None
    }
}

/// Convert an SA-day to days since the Unix epoch (1970-01-01).
///
/// Returns `None` for SA-days outside the plausible window.
pub fn sa_day_to_unix_day(sa_day: u32) -> (r: Option<i64>)
    ensures
        r is Some <==> spec_sa_day_to_unix_day(sa_day as int) is Some,
        r matches Some(d) ==> spec_sa_day_to_unix_day(sa_day as int) == Some(d as int),
{
    if sa_day < SA_DAY_MIN_PLAUSIBLE || sa_day > SA_DAY_MAX_PLAUSIBLE {
        return None;
    }
    Some(sa_day as i64 - DATE_EPOCH_DAYS_BEFORE_UNIX)
}

/// Inverse of [`sa_day_to_unix_day`]: the SA-day of a Unix day.
///
/// Returns `None` when the SA-day would lie outside the plausible window
/// `[SA_DAY_MIN_PLAUSIBLE, SA_DAY_MAX_PLAUSIBLE]`.
pub fn unix_day_to_sa_day(unix_day: i64) -> (r: Option<u32>)
    ensures
        r is Some <==> spec_unix_day_to_sa_day(unix_day as int) is Some,
        r matches Some(s) ==> spec_unix_day_to_sa_day(unix_day as int) == Some(s as int),
{
    if unix_day < SA_DAY_MIN_PLAUSIBLE as i64 - DATE_EPOCH_DAYS_BEFORE_UNIX || unix_day
        > SA_DAY_MAX_PLAUSIBLE as i64 - DATE_EPOCH_DAYS_BEFORE_UNIX {
        return None;
    }
    let v = unix_day + DATE_EPOCH_DAYS_BEFORE_UNIX;
    Some(v as u32)
}

/// SA-day to Unix seconds at midnight UTC.
pub fn sa_day_to_unix_seconds(sa_day: u32) -> (r: Option<i64>)
    ensures
        r is Some <==> spec_sa_day_to_unix_day(sa_day as int) is Some,
        r matches Some(t) ==> t == spec_sa_day_to_unix_day(sa_day as int).unwrap() * 86_400,
{
    match sa_day_to_unix_day(sa_day) {
        Some(d) => Some(d * 86_400),
        None => None,
    }
}

/// Every plausible SA-day survives the round trip SA-day -> Unix day ->
/// SA-day unchanged.
pub proof fn lemma_sa_day_round_trip(sa_day: int)
    requires
        sa_day_plausible(sa_day),
    ensures
        spec_unix_day_to_sa_day(spec_sa_day_to_unix_day(sa_day).unwrap()) == Some(sa_day),
{
}

/// A Unix day with a plausible SA-day survives the round trip Unix day ->
/// SA-day -> Unix day unchanged.
pub proof fn lemma_unix_day_round_trip(unix_day: int)
    requires
        spec_unix_day_to_sa_day(unix_day) is Some,
    ensures
        spec_sa_day_to_unix_day(spec_unix_day_to_sa_day(unix_day).unwrap()) == Some(unix_day),
{
}

} // verus!
