//! Points in time: Windows FILETIME conversion and UTC formatting through
//! `chrono`.

use vstd::prelude::*;
use chrono::TimeZone;
use crate::models::opt_view;

verus! {

/// The text `chrono` prints for the UTC instant `secs` seconds after the
/// Unix epoch with the pattern `%Y-%m-%d %H:%M:%S UTC`, or `None` when
/// `chrono` cannot represent that instant.
pub uninterp spec fn utc_date_text(secs: i64) -> Option<Seq<char>>;

/// `Utc.timestamp_opt(secs, 0)` formatted with `%Y-%m-%d %H:%M:%S UTC`.
/// Claimed: the result is named `utc_date_text(secs)`, and it is present
/// for every instant within ±8·10¹² seconds of the epoch (chrono represents
/// the years -262143 to 262142). The digits themselves are not stated.
#[verifier::external_body]
pub(crate) fn format_utc(secs: i64) -> (r: Option<String>)
    ensures
        opt_view(r) == utc_date_text(secs),
        -8_000_000_000_000 <= secs <= 8_000_000_000_000 ==> r is Some,
{
    chrono::Utc.timestamp_opt(secs, 0).single().map(|d| d.format("%Y-%m-%d %H:%M:%S UTC").to_string())
}

/// `Utc.timestamp_opt(secs, 0).single()`, handed back as its timestamp.
/// Claimed: a present result round-trips to `secs`, and the result is
/// present for every instant within ±8·10¹² seconds of the epoch.
#[verifier::external_body]
pub(crate) fn utc_timestamp(secs: i64) -> (r: Option<i64>)
    ensures
        r matches Some(t) ==> t == secs,
        -8_000_000_000_000 <= secs <= 8_000_000_000_000 ==> r is Some,
{
    chrono::Utc.timestamp_opt(secs, 0).single().map(|d| d.timestamp())
}

/// Integer division rounding toward zero, as Rust's `/` does.
pub open spec fn div_toward_zero(a: int, b: int) -> int {
    if a >= 0 {
        a / b
    } else {
        -((-a) / b)
    }
}

/// Seconds since the Unix epoch of a FILETIME (100 ns ticks since 1601).
pub open spec fn filetime_secs(ft: i64) -> int {
    div_toward_zero(ft as int, 10_000_000) - 11_644_473_600
}

/// The UTC instant of a FILETIME, in whole seconds since the Unix epoch.
pub fn filetime_to_datetime(ft: i64) -> (r: Option<i64>)
    ensures
        r == Some(filetime_secs(ft) as i64),
{
    let q = ft / 10_000_000;
    assert(q as int == div_toward_zero(ft as int, 10_000_000));
    let unix_secs = q - 11_644_473_600;
    utc_timestamp(unix_secs)
}

} // verus!
