//! Time: the system clock and UTC date text (through `chrono`).

use chrono::{DateTime, Utc};
use std::time::{SystemTime, UNIX_EPOCH};
use vstd::prelude::*;
use crate::text::string_of;

verus! {

#[verifier::external_type_specification]
#[verifier::external_body]
pub struct ExSystemTime(SystemTime);

/// `s` ends with `suffix`.
pub open spec fn ends_with(s: Seq<char>, suffix: Seq<char>) -> bool {
    s.len() >= suffix.len() && s.subrange(s.len() - suffix.len(), s.len() as int) == suffix
}

/// The date text chrono gives for a number of seconds since the epoch, if it
/// is in chrono's range.
pub uninterp spec fn utc_date_text(secs: i64) -> Option<Seq<char>>;

/// Calls `std::time::SystemTime::now()`: the current time, whatever the clock says.
#[verifier::external_body]
pub(crate) fn now() -> SystemTime {
    SystemTime::now()
}

/// The whole seconds and nanoseconds since the epoch that std gives for a
/// time (`None` for a time before the epoch).
pub uninterp spec fn epoch_parts(t: SystemTime) -> Option<(u64, u128)>;

/// Calls `SystemTime::duration_since(UNIX_EPOCH)`: `None` for a time before
/// the epoch, otherwise the whole seconds (`Duration::as_secs`) and the
/// nanoseconds (`Duration::as_nanos`) since the epoch, the first being the
/// second divided by 10^9 as `Duration` documents. The result depends on
/// the time alone and is named by `epoch_parts`.
#[verifier::external_body]
pub(crate) fn since_epoch(t: &SystemTime) -> (r: Option<(u64, u128)>)
    ensures
        r == epoch_parts(*t),
        r matches Some(p) ==> p.0 == p.1 / 1_000_000_000,
{
    match t.duration_since(UNIX_EPOCH) {
        Ok(d) => Some((d.as_secs(), d.as_nanos())),
        Err(_) => None,
    }
}

/// Calls `chrono::DateTime::from_timestamp(secs, 0)` and, when it gives a
/// date, formats it with `"%Y-%m-%d %H:%M:%S UTC"`. The result is named by
/// `utc_date_text`; the format ends with the literal text " UTC".
#[verifier::external_body]
pub(crate) fn format_utc(secs: i64) -> (r: Option<String>)
    ensures
        r is Some == utc_date_text(secs) is Some,
        r matches Some(s) ==> s@ == utc_date_text(secs).unwrap() && ends_with(s@, " UTC"@),
{
    match DateTime::from_timestamp(secs, 0) {
        Some(d) => Some(d.format("%Y-%m-%d %H:%M:%S UTC").to_string()),
        None => None,
    }
}

/// Calls `chrono::Utc::now()` and formats it with `"%Y-%m-%d %H:%M:%S UTC"`;
/// the time of the call decides the date, and the text ends with " UTC".
#[verifier::external_body]
pub(crate) fn format_utc_now() -> (s: String)
    ensures
        ends_with(s@, " UTC"@),
{
    Utc::now().format("%Y-%m-%d %H:%M:%S UTC").to_string()
}

/// Calls `format!("{:?}", t)`: the debug text of a time.
#[verifier::external_body]
pub(crate) fn debug_text(t: &SystemTime) -> String {
    format!("{:?}", t)
}

/// The date text of a time given by its whole seconds and nanoseconds since
/// the epoch: "Unknown time" for a time before the epoch (`None`); else
/// chrono's UTC date of the seconds, taken as `i64`; or, where chrono has no
/// such date, some date text ending in " UTC" (the date of the moment it is
/// asked for).
pub open spec fn date_text_ok(epoch: Option<(u64, u128)>, s: Seq<char>) -> bool {
    match epoch {
        None => s == "Unknown time"@,
        Some(p) => match utc_date_text(p.0 as i64) {
            Some(t) => s == t,
            None => ends_with(s, " UTC"@),
        },
    }
}

/// The date text of a time given by its whole seconds and nanoseconds since
/// the epoch (`None` for a time before the epoch).
pub fn date_text(epoch: Option<(u64, u128)>) -> (s: String)
    ensures
        date_text_ok(epoch, s@),
        s@ == "Unknown time"@ <==> epoch is None,
        s@ == "Unknown time"@ || ends_with(s@, " UTC"@),
{
    proof {
        reveal_strlit("Unknown time");
        reveal_strlit(" UTC");
    }
    match epoch {
        Some((secs, _)) => match format_utc(secs as i64) {
            Some(text) => {
                assert(text@ != "Unknown time"@) by {
                    let l = text@.len() as int;
                    assert(text@.subrange(l - 4, l)[3] == text@[l - 1]);
                    assert(" UTC"@[3] == 'C');
                    assert("Unknown time"@[11] == 'e');
                }
                text
            },
            None => {
                let text = format_utc_now();
                assert(text@ != "Unknown time"@) by {
                    let l = text@.len() as int;
                    assert(text@.subrange(l - 4, l)[3] == text@[l - 1]);
                    assert(" UTC"@[3] == 'C');
                    assert("Unknown time"@[11] == 'e');
                }
                text
            },
        },
        None => string_of("Unknown time"),
    }
}

/// A time as UTC date text: the date of its whole seconds since the epoch
/// (the current date when chrono cannot represent it), or "Unknown time"
/// for a time before the epoch.
pub fn time_text(t: &SystemTime) -> (s: String)
    ensures
        date_text_ok(epoch_parts(*t), s@),
        s@ == "Unknown time"@ <==> epoch_parts(*t) is None,
        s@ == "Unknown time"@ || ends_with(s@, " UTC"@),
{
    date_text(since_epoch(t))
}

} // verus!
