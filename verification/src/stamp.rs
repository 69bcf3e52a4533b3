//! Points in time as they are recorded.

use vstd::prelude::*;

use crate::text;

verus! {

/// A point in time, and the offset from UTC that it was taken at.
#[derive(Debug, Clone, Copy, PartialEq, Eq, Structural)]
pub struct Timestamp {
    /// Nanoseconds since the beginning of 1970 in UTC.
    pub nanos: i128,
    /// Seconds east of UTC.
    pub offset: i32,
}

/// The point in time that an RFC 3339 text stands for, if it is one.
pub uninterp spec fn rfc3339_stamp(s: Seq<char>) -> Option<(i128, i32)>;

/// `time::OffsetDateTime::parse` with `Rfc3339`, taken apart into nanoseconds
/// and offset. What it gives depends on the text alone.
#[verifier::external_body]
fn read_rfc3339(s: &str) -> (r: Option<(i128, i32)>)
    ensures
        r == rfc3339_stamp(s@),
{
    let parsed =
        time::OffsetDateTime::parse(s, &time::format_description::well_known::Rfc3339).ok()?;
    Some((parsed.unix_timestamp_nanos(), parsed.offset().whole_seconds()))
}

/// The RFC 3339 text for a point in time, if there is one.
pub uninterp spec fn rfc3339_text(nanos: i128, offset: i32) -> Option<Seq<char>>;

/// `time::OffsetDateTime::format` with `Rfc3339`, for a value put together of
/// nanoseconds and offset. There is no text for a year outside 0 to 9999, for
/// an offset with seconds or for one of a day or more; where there is a text,
/// reading it gives the same nanoseconds and offset back.
#[verifier::external_body]
fn write_rfc3339(nanos: i128, offset: i32) -> (r: Option<String>)
    ensures
        text::opt_text(r) == rfc3339_text(nanos, offset),
        r is Some ==> rfc3339_stamp(r->0@) == Some((nanos, offset)),
{
    let utc = time::OffsetDateTime::from_unix_timestamp_nanos(nanos).ok()?;
    let offset = time::UtcOffset::from_whole_seconds(offset).ok()?;
    let local = utc.checked_to_offset(offset)?;
    local.format(&time::format_description::well_known::Rfc3339).ok()
}

impl Timestamp {
    /// The beginning of 1970 in UTC.
    pub fn epoch() -> (r: Timestamp)
        ensures
            r.nanos == 0,
            r.offset == 0,
    {
        Timestamp { nanos: 0, offset: 0 }
    }

    /// What a text stands for.
    pub open spec fn read(s: Seq<char>) -> Option<Timestamp> {
        match rfc3339_stamp(s) {
            Some((nanos, offset)) => Some(Timestamp { nanos, offset }),
            None => None,
        }
    }

    /// Reads an RFC 3339 text.
    pub fn parse(s: &str) -> (r: Option<Timestamp>)
        ensures
            r == Timestamp::read(s@),
    {
        match read_rfc3339(s) {
            Some((nanos, offset)) => Some(Timestamp { nanos, offset }),
            None => None,
        }
    }

    /// The RFC 3339 text. Reading it gives the point in time back.
    pub fn to_text(self) -> (r: Option<String>)
        ensures
            text::opt_text(r) == rfc3339_text(self.nanos, self.offset),
            r is Some ==> Timestamp::read(r->0@) == Some(self),
    {
        write_rfc3339(self.nanos, self.offset)
    }
}

} // verus!
