//! Points in time as plain numbers, and the calendar arithmetic that is left
//! to `chrono`.

use vstd::prelude::*;

verus! {

/// The layout of a timestamp in the stored text: `YYYY-MM-DD HH:MM ±HHMM`.
pub const DATE_FMT: &'static str = "%Y-%m-%d %H:%M %z";

/// The layout of the short date shown next to a completed item: `YY-MM-DD`.
pub const SHORT_DATE_FMT: &'static str = "%y-%m-%d";

/// An instant together with the offset of the zone it was taken in.
#[derive(Clone, Copy, Debug, PartialEq, Eq, Structural)]
pub struct Timestamp {
    /// Seconds since 1970-01-01 00:00:00 UTC, leap seconds not counted.
    pub secs: i64,
    /// Nanoseconds since the last whole second.
    pub nanos: u32,
    /// Seconds to add to UTC to get the local wall clock time.
    pub offset: i32,
}

/// The text that `chrono` writes for the instant `secs`, `nanos` seen at
/// `offset` under the strftime layout `fmt`, or `None` where it writes none.
pub uninterp spec fn rendered_stamp(fmt: Seq<char>, secs: i64, nanos: u32, offset: i32) -> Option<Seq<char>>;

/// The timestamp that `chrono` reads from `text` under the strftime layout
/// `fmt`, or `None` where it rejects the text.
pub uninterp spec fn parsed_stamp(fmt: Seq<char>, text: Seq<char>) -> Option<Timestamp>;

/// The current local time, from `chrono::Local::now`, taken apart into its
/// seconds, nanoseconds and offset. It depends on the clock and the machine's
/// time zone, so nothing is claimed of the result.
///
/// # Panics
///
/// `Local::now` panics where the system clock stands before 1970-01-01
/// 00:00:00 UTC, and so does this function and every function that reads the
/// clock through it.
#[verifier::external_body]
pub(crate) fn read_clock() -> (now: Timestamp) {
    let at = chrono::Local::now();
    Timestamp {
        secs: at.timestamp(),
        nanos: at.timestamp_subsec_nanos(),
        offset: at.offset().local_minus_utc(),
    }
}

/// Rebuilds the `chrono::DateTime` that `stamp` stands for
/// (`FixedOffset::east_opt`, `TimeZone::timestamp_opt`) and writes it with
/// `DateTime::format` under `fmt`. The result is `None` where the numbers are out
/// of chrono's range or the layout cannot be written; otherwise it is the
/// text named by `rendered_stamp`.
#[verifier::external_body]
pub(crate) fn render_stamp(stamp: &Timestamp, fmt: &str) -> (out: Option<String>)
    ensures
        match out {
            Some(s) => rendered_stamp(fmt@, stamp.secs, stamp.nanos, stamp.offset) == Some(s@),
            None => rendered_stamp(fmt@, stamp.secs, stamp.nanos, stamp.offset) is None,
        },
{
    let zone = chrono::FixedOffset::east_opt(stamp.offset)?;
    let at = chrono::TimeZone::timestamp_opt(&zone, stamp.secs, stamp.nanos).single()?;
    let mut out = String::new();
    at.format(fmt).write_to(&mut out).ok()?;
    Some(out)
}

/// Reads `text` with `chrono::DateTime::parse_from_str` under `fmt` and takes
/// the result apart into seconds, nanoseconds and offset. The result is the
/// value named by `parsed_stamp`; a text that chrono rejects gives `None`.
#[verifier::external_body]
pub(crate) fn parse_stamp(text: &str, fmt: &str) -> (out: Option<Timestamp>)
    ensures
        out == parsed_stamp(fmt@, text@),
{
    match chrono::DateTime::parse_from_str(text, fmt) {
        Ok(at) => Some(
            Timestamp {
                secs: at.timestamp(),
                nanos: at.timestamp_subsec_nanos(),
                offset: at.offset().local_minus_utc(),
            },
        ),
        Err(_) => None,
    }
}

} // verus!
