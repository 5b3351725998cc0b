//! Commit dates as `YYYY-MM-DD HH:MM:SS+HH:MM`, formatted by the `time` crate.
use vstd::prelude::*;

use crate::error::Error;
use crate::text::push_str;

verus! {

/// The text `time::OffsetDateTime::format` gives for the instant `seconds`
/// after the Unix epoch, seen at the UTC offset `offset_seconds`, in the
/// format `description`.
pub uninterp spec fn timestamp_text(seconds: int, offset_seconds: int, description: Seq<char>) -> Seq<char>;

/// The largest UTC offset `time::UtcOffset` accepts, ±25:59:59, in seconds.
pub open spec fn max_offset_seconds() -> int {
    93599
}

/// `true` for the offsets `time::UtcOffset::from_whole_seconds` accepts:
/// those within ±25:59:59 (the crate's `WholeSeconds` range).
fn offset_in_range(seconds: i32) -> (r: bool)
    ensures
        r == (-max_offset_seconds() <= seconds <= max_offset_seconds()),
{
    -93599 <= seconds && seconds <= 93599
}

/// The first instant `time` represents, -9999-01-01 00:00:00 UTC, in
/// seconds after the Unix epoch (`Date::MIN` at midnight).
pub open spec fn first_instant() -> int {
    -377705116800
}

/// The last instant `time` represents, 9999-12-31 23:59:59 UTC, in seconds
/// after the Unix epoch (`Date::MAX` at `Time::MAX`).
pub open spec fn last_instant() -> int {
    253402300799
}

/// `true` when the instant `seconds` after the Unix epoch, and the same
/// instant seen at the offset `offset_seconds`, both lie within the years
/// `time` represents.
pub open spec fn formattable(seconds: int, offset_seconds: int) -> bool {
    &&& first_instant() <= seconds <= last_instant()
    &&& first_instant() <= seconds + offset_seconds <= last_instant()
}

/// Formats the instant `seconds` after the Unix epoch at the UTC offset
/// `offset_seconds` with `time::OffsetDateTime::format` and the format
/// description `description` (parsed by `time::format_description::parse`).
/// The claims: any text it returns is [`timestamp_text`] of the arguments;
/// and for the description gitalong writes dates with, it returns a text
/// whenever the instant is [`formattable`] at that offset
/// (`from_unix_timestamp` accepts the instants from `Date::MIN` to
/// `Date::MAX`, `checked_to_offset` the offsets that keep the local date in
/// that range, and formatting a full date-time into a string does not
/// fail). Outside that range it may return nothing; this contract does not
/// say where, as a build with `time`'s large-dates feature reaches further.
#[verifier::external_body]
fn format_timestamp(seconds: i64, offset_seconds: i32, description: &str) -> (r: Option<String>)
    requires
        -max_offset_seconds() <= offset_seconds <= max_offset_seconds(),
    ensures
        r matches Some(s) ==> s@ == timestamp_text(seconds as int, offset_seconds as int, description@),
        description@ == date_format() && formattable(seconds as int, offset_seconds as int) ==> r is Some,
{
    let offset = time::UtcOffset::from_whole_seconds(offset_seconds).ok()?;
    let items = time::format_description::parse(description).ok()?;
    let at = time::OffsetDateTime::from_unix_timestamp(seconds).ok()?;
    at.checked_to_offset(offset)?.format(&items).ok()
}

/// The format of every date gitalong writes.
pub open spec fn date_format() -> Seq<char> {
    "[year]-[month]-[day] [hour]:[minute]:[second][offset_hour sign:mandatory]:[offset_minute]"@
}

/// The offset, in seconds, a date is written at for a git offset of
/// `offset_minutes`: the offset itself when `time` accepts it, UTC otherwise.
pub open spec fn written_offset(offset_minutes: int) -> int {
    if -max_offset_seconds() <= offset_minutes * 60 <= max_offset_seconds() {
        offset_minutes * 60
    } else {
        0
    }
}

fn date_error(what: &str) -> (e: Error)
    ensures
        e matches Error::InvalidConfig(m) && m@ == what@,
{
    let mut m = String::new();
    push_str(&mut m, what);
    Error::InvalidConfig(m)
}

/// The date of a git commit made `seconds` after the Unix epoch at a UTC
/// offset of `offset_minutes`; an offset `time` does not accept is read as
/// UTC. Fails with [`Error::InvalidConfig`] when `time` cannot format the
/// instant.
pub fn format_git_time(seconds: i64, offset_minutes: i32) -> (r: Result<String, Error>)
    requires
        i32::MIN <= offset_minutes * 60 <= i32::MAX,
    ensures
        r matches Ok(s) ==> s@ == timestamp_text(
            seconds as int,
            written_offset(offset_minutes as int),
            date_format(),
        ),
        formattable(seconds as int, written_offset(offset_minutes as int)) ==> r is Ok,
        r matches Err(e) ==> e matches Error::InvalidConfig(_),
{
    proof {
        reveal_strlit("[year]-[month]-[day] [hour]:[minute]:[second][offset_hour sign:mandatory]:[offset_minute]");
    }
    let raw = offset_minutes * 60;
    let offset = if offset_in_range(raw) {
        raw
    } else {
        0
    };
    match format_timestamp(
        seconds,
        offset,
        "[year]-[month]-[day] [hour]:[minute]:[second][offset_hour sign:mandatory]:[offset_minute]",
    ) {
        Some(s) => Ok(s),
        None => Err(date_error("git commit timestamp out of range")),
    }
}

/// The date, in UTC, of the instant `seconds` after the Unix epoch. Fails
/// with [`Error::InvalidConfig`] when `time` cannot format the instant.
pub fn format_utc(seconds: i64) -> (r: Result<String, Error>)
    ensures
        r matches Ok(s) ==> s@ == timestamp_text(seconds as int, 0, date_format()),
        first_instant() <= seconds <= last_instant() ==> r is Ok,
        r matches Err(e) ==> e matches Error::InvalidConfig(_),
{
    proof {
        reveal_strlit("[year]-[month]-[day] [hour]:[minute]:[second][offset_hour sign:mandatory]:[offset_minute]");
    }
    match format_timestamp(
        seconds,
        0,
        "[year]-[month]-[day] [hour]:[minute]:[second][offset_hour sign:mandatory]:[offset_minute]",
    ) {
        Some(s) => Ok(s),
        None => Err(date_error("date out of range")),
    }
}

} // verus!
