//! Wall-clock readings, and their rendering as UTC timestamps through
//! `chrono`.

use vstd::prelude::*;

verus! {

/// The layout of a timestamp: `YYYY-MM-DDTHH:MM:SSZ`.
pub open spec fn stamp_format() -> Seq<char> {
    "%Y-%m-%dT%H:%M:%SZ"@
}

/// How `chrono` renders the UTC instant `secs` seconds after the Unix
/// epoch in the layout `fmt`; `None` when `secs` lies outside the range of
/// instants it represents.
pub uninterp spec fn chrono_utc_format(secs: i64, fmt: Seq<char>) -> Option<Seq<char>>;

/// A system-clock instant, held opaque.
#[verifier::external_type_specification]
#[verifier::external_body]
pub struct ExSystemTime(std::time::SystemTime);

/// The current system-clock instant (`SystemTime::now`). Nothing is
/// promised of it: it is whatever the machine's clock reads.
#[verifier::external_body]
pub(crate) fn system_time_now() -> std::time::SystemTime {
    std::time::SystemTime::now()
}

/// How long after the Unix epoch `t` lies (`SystemTime::duration_since`
/// with `UNIX_EPOCH`); `None` when `t` lies before the epoch, where the
/// call returns an error.
#[verifier::external_body]
pub(crate) fn since_unix_epoch(t: &std::time::SystemTime) -> Option<core::time::Duration> {
    match t.duration_since(std::time::UNIX_EPOCH) {
        Ok(d) => Some(d),
        Err(_) => None,
    }
}

/// The whole seconds of a duration (`Duration::as_secs`).
#[verifier::external_body]
pub(crate) fn whole_secs(d: &core::time::Duration) -> u64 {
    d.as_secs()
}

/// The UTC instant `secs` seconds after the epoch, rendered in the layout
/// `fmt` (`chrono::DateTime::from_timestamp`, then `format`). The result is
/// what `chrono_utc_format` names; the layout must be the timestamp layout,
/// which `chrono` can always render.
#[verifier::external_body]
pub(crate) fn format_utc(secs: i64, fmt: &str) -> (r: Option<String>)
    requires
        fmt@ == stamp_format(),
    ensures
        match r {
            Some(t) => chrono_utc_format(secs, fmt@) == Some(t@),
            None => chrono_utc_format(secs, fmt@) is None,
        },
{
    match chrono::DateTime::from_timestamp(secs, 0) {
        Some(t) => Some(t.format(fmt).to_string()),
        None => None,
    }
}

} // verus!
