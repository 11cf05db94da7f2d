use vstd::prelude::*;

use chrono::Datelike;

verus! {

/// Relies on chrono's `Local::now`, `date_naive` and `num_days_from_ce`:
/// the local calendar date now, counted in days, day 1 being January 1 of
/// year 1 of the proleptic Gregorian calendar. The value depends on the
/// clock, so only the bounds of the underlying 32-bit day count are
/// promised.
#[verifier::external_body]
pub(crate) fn today_day_number() -> (d: i64)
    ensures
        -0x8000_0000 <= d <= 0x7fff_ffff,
{
    i64::from(chrono::Local::now().date_naive().num_days_from_ce())
}

/// Relies on chrono's `Local::now` and `DateTime::timestamp`: the current
/// time in whole seconds of the Unix epoch. The value depends on the
/// clock, so nothing is promised of it.
#[verifier::external_body]
pub(crate) fn now_timestamp() -> i64 {
    chrono::Local::now().timestamp()
}

/// Relies on uuid's `Uuid::new_v4` and `as_u128`: a randomly generated
/// version-4 UUID, carried as its 128-bit value. The value is random, so
/// nothing is promised of it.
#[verifier::external_body]
pub(crate) fn fresh_id() -> u128 {
    uuid::Uuid::new_v4().as_u128()
}

} // verus!
