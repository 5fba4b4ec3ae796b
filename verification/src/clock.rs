//! The clock, and how a point in time is written out.

use vstd::prelude::*;
use crate::db::text_view;

verus! {

/// The text that chrono writes for the UTC time `seconds` after the Unix
/// epoch under the pattern `pattern`. It is `None` for a number of seconds
/// that chrono cannot hold as a date.
pub uninterp spec fn formatted_timestamp(seconds: i64, pattern: Seq<char>) -> Option<Seq<char>>;

/// chrono's `DateTime::from_timestamp`, and `DateTime::format` on the time
/// it makes. Trusted: whether there is a text, and which, depends on
/// `seconds` and `pattern` alone (UTC has no offset to look up and the
/// pattern names no locale), so the contract gives the result the name
/// `formatted_timestamp`; it says nothing of what the text holds. The one
/// pattern it takes is made of six specifiers that chrono knows, so writing
/// the time out cannot fail.
#[verifier::external_body]
pub(crate) fn timestamp_text(seconds: i64, pattern: &str) -> (text: Option<String>)
    requires
        pattern@ == "%Y-%m-%d %H:%M:%S"@,
    ensures
        text_view(text) == formatted_timestamp(seconds, pattern@),
{
    match chrono::DateTime::<chrono::Utc>::from_timestamp(seconds, 0) {
        Some(time) => Some(time.format(pattern).to_string()),
        None => None,
    }
}

/// The system clock, read by std's `SystemTime::now` and turned into whole
/// seconds since the Unix epoch by chrono's conversion of a `SystemTime` to a
/// `DateTime<Utc>`. Trusted, and with nothing promised of the number: it is
/// whatever the clock says. A clock that stands before the epoch gives a
/// negative number. The conversion counts on the clock to stand within the
/// 262,000 years either side of the epoch that chrono has dates for.
#[verifier::external_body]
pub(crate) fn now_seconds() -> (seconds: i64) {
    chrono::DateTime::<chrono::Utc>::from(std::time::SystemTime::now()).timestamp()
}

} // verus!
