use crate::text::{decimal, push_decimal};
use vstd::prelude::*;
use vstd::string::StringExecFns;

verus! {

/// The puzzle URL for a given day.
pub fn url_for_day(year: u32, day: u8) -> (r: String)
    ensures
        r@ == "https://adventofcode.com/"@ + decimal(year as nat) + "/day/"@ + decimal(day as nat),
{
    let mut s = String::from_str("https://adventofcode.com/");
    push_decimal(&mut s, year as u64);
    s.append("/day/");
    push_decimal(&mut s, day as u64);
    s
}

/// The input URL for a given day.
pub fn input_url_for_day(year: u32, day: u8) -> (r: String)
    ensures
        r@ == "https://adventofcode.com/"@ + decimal(year as nat) + "/day/"@ + decimal(day as nat) + "/input"@,
{
    let mut s = url_for_day(year, day);
    s.append("/input");
    s
}

/// The instant that RFC 3339 text names, in nanoseconds since the Unix epoch.
pub uninterp spec fn rfc3339_nanos(s: Seq<char>) -> Option<int>;

/// Relies on `time::OffsetDateTime::parse` with the `Rfc3339` format, and on
/// `OffsetDateTime::unix_timestamp_nanos`: the instant the text names, or `None` when it is
/// not RFC 3339.
#[verifier::external_body]
fn parse_rfc3339(s: &str) -> (r: Option<i128>)
    ensures
        r is Some <==> rfc3339_nanos(s@) is Some,
        r matches Some(t) ==> rfc3339_nanos(s@) == Some(t as int),
{
    time::OffsetDateTime::parse(s, &time::format_description::well_known::Rfc3339).ok().map(|t| t.unix_timestamp_nanos())
}

/// What to do about a day's input file.
#[derive(Debug, Clone, Copy, PartialEq, Eq, Structural)]
pub enum Fetch {
    /// The file is already there.
    AlreadyPresent,
    /// The recorded next download time has not come yet.
    Throttled,
    /// Download it now.
    Download,
}

/// `true` when `text` records an instant later than `now`.
pub open spec fn is_throttled(text: Option<Seq<char>>, now: int) -> bool {
    match text {
        Some(t) => match rfc3339_nanos(t) {
            Some(at) => now < at,
            None => false,
        },
        None => false,
    }
}

/// Decide whether to download a day's input: never when the file exists; not while the
/// next download time recorded in `throttle_text` lies after `now_nanos`; otherwise yes,
/// also when no time or an unreadable one is recorded.
pub fn fetch_decision(input_exists: bool, throttle_text: Option<&str>, now_nanos: i128) -> (r: Fetch)
    ensures
        input_exists ==> r == Fetch::AlreadyPresent,
        !input_exists ==> r == (if is_throttled(
            match throttle_text {
                Some(t) => Some(t@),
                None => None,
            },
            now_nanos as int,
        ) {
            Fetch::Throttled
        } else {
            Fetch::Download
        }),
{
    if input_exists {
        return Fetch::AlreadyPresent;
    }
    match throttle_text {
        Some(text) => match parse_rfc3339(text) {
            Some(available) => if now_nanos < available {
                Fetch::Throttled
            } else {
                Fetch::Download
            },
            None => Fetch::Download,
        },
        None => Fetch::Download,
    }
}

} // verus!
