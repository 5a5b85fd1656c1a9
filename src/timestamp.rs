//! The timestamp written before each log line.

use vstd::prelude::*;
use crate::text::{decimal, decimal2, push_decimal, push_decimal2};

verus! {

/// `DD-MM-YYYY hh:mm:ss` for `secs` seconds after the Unix epoch, on a
/// simplified calendar: years of 365 days and months of 30 days.
pub open spec fn timestamp_text(secs: nat) -> Seq<char> {
    let secs_of_day = secs % 86400;
    let days = secs / 86400;
    decimal2(days % 30 + 1) + "-"@ + decimal2((days % 365) / 30 + 1) + "-"@ + decimal(1970 + days / 365) + " "@
        + decimal2(secs_of_day / 3600) + ":"@ + decimal2((secs_of_day % 3600) / 60) + ":"@ + decimal2(secs_of_day % 60)
}

/// Formats `in_secs`, the seconds since the Unix epoch, as a log timestamp.
pub fn get_timestamp(in_secs: u64) -> (r: String)
    ensures
        r@ == timestamp_text(in_secs as nat),
{
    let secs_of_day = in_secs % 86400;
    let hours = secs_of_day / 3600;
    let minutes = (secs_of_day % 3600) / 60;
    let seconds = secs_of_day % 60;
    let days_since_epoch = in_secs / 86400;
    let year = 1970 + days_since_epoch / 365;
    let month = (days_since_epoch % 365) / 30 + 1;
    let day = days_since_epoch % 30 + 1;
    let mut out = String::new();
    push_decimal2(&mut out, day);
    out.append("-");
    push_decimal2(&mut out, month);
    out.append("-");
    push_decimal(&mut out, year);
    out.append(" ");
    push_decimal2(&mut out, hours);
    out.append(":");
    push_decimal2(&mut out, minutes);
    out.append(":");
    push_decimal2(&mut out, seconds);
    assert(out@ =~= timestamp_text(in_secs as nat));
    out
}

} // verus!
