//! Timestamps.

use vstd::prelude::*;

verus! {

/// The first millisecond after the epoch that has no four-digit year.
pub const YEAR_10000_MILLIS: u64 = 253_402_300_800_000;

/// The RFC 3339 text, in UTC with milliseconds, of a time in milliseconds after the epoch.
pub uninterp spec fn rfc3339_millis(unix_millis: u64) -> Seq<char>;

/// `humantime::format_rfc3339_millis`, displayed. It fails from the year 10000 on.
#[verifier::external_body]
pub(crate) fn format_millis(unix_millis: u64) -> (text: String)
    requires
        unix_millis < YEAR_10000_MILLIS,
    ensures
        text@ == rfc3339_millis(unix_millis),
{
    let time = std::time::UNIX_EPOCH + std::time::Duration::from_millis(unix_millis);
    humantime::format_rfc3339_millis(time).to_string()
}

/// The timestamp of a time in milliseconds after the epoch; none from the year 10000 on.
pub fn timestamp(unix_millis: u64) -> (text: Option<String>)
    ensures
        match text {
            Some(text) => unix_millis < YEAR_10000_MILLIS && text@ == rfc3339_millis(unix_millis),
            None => unix_millis >= YEAR_10000_MILLIS,
        },
{
    if unix_millis < YEAR_10000_MILLIS {
        Some(format_millis(unix_millis))
    } else {
        None
    }
}

} // verus!
