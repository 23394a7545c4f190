//! RFC 3339 timestamps, which `chrono` reads and writes.
use vstd::prelude::*;

use crate::clock::was_shown;

verus! {

/// The last millisecond that `chrono` represents, counted from the start of 1970.
pub const LAST_MILLIS: i64 = 8_210_266_876_799_999;

/// The first millisecond of the year 0, counted from the start of 1970.
pub const FIRST_FOUR_DIGIT_MILLIS: i64 = -62_167_219_200_000;

/// The last millisecond of the year 9999, counted from the start of 1970.
pub const LAST_FOUR_DIGIT_MILLIS: i64 = 253_402_300_799_999;

/// What `chrono` reads from a text: the whole seconds since the start of 1970 and the nanoseconds
/// that follow them, with the moment as `chrono` displays it, or the message that says why the
/// text is no RFC 3339 timestamp.
pub uninterp spec fn rfc3339_reading(text: Seq<char>) -> Result<
    (i64, u32, Seq<char>),
    Seq<char>,
>;

/// The moment so many milliseconds after the start of 1970, as `chrono` writes it in RFC 3339 with
/// three decimals and the suffix `Z`.
pub uninterp spec fn rfc3339_millis(millis: i64) -> Seq<char>;

/// Whether the moment so many milliseconds after the start of 1970 lies in the years 0 to 9999.
pub open spec fn has_four_digit_year(millis: i64) -> bool {
    FIRST_FOUR_DIGIT_MILLIS <= millis <= LAST_FOUR_DIGIT_MILLIS
}

/// Whether the character at `i` is a digit.
pub open spec fn is_digit_at(text: Seq<char>, i: int) -> bool {
    '0' <= text[i] <= '9'
}

/// Whether `text` has the shape `YYYY-MM-DDTHH:MM:SS.mmmZ`, with digits for the letters other than
/// `T` and `Z`.
pub open spec fn is_timestamp_shaped(text: Seq<char>) -> bool {
    &&& text.len() == 24
    &&& text[4] == '-' && text[7] == '-' && text[10] == 'T' && text[13] == ':' && text[16] == ':'
    &&& text[19] == '.' && text[23] == 'Z'
    &&& forall|i: int|
        0 <= i < 23 && i != 4 && i != 7 && i != 10 && i != 13 && i != 16 && i != 19
            ==> #[trigger] is_digit_at(text, i)
}

/// The milliseconds from the start of 1970 to the given nanosecond of the given second, cut down to
/// a whole number.
pub open spec fn whole_millis(seconds: int, nanos: int) -> int {
    seconds * 1000 + nanos / 1_000_000
}

/// Whether `text` is read as the moment so many milliseconds after the start of 1970.
pub open spec fn reads_as(text: Seq<char>, millis: i64) -> bool {
    match rfc3339_reading(text) {
        Ok((seconds, nanos, _)) => (seconds as int, nanos as int) == millis_moment(millis as int),
        Err(_) => false,
    }
}

/// The moment so many milliseconds after the start of 1970, in whole seconds and the nanoseconds
/// that follow them.
pub open spec fn millis_moment(millis: int) -> (int, int) {
    (millis / 1000, millis % 1000 * 1_000_000)
}

/// A moment that was read from a timestamp.
pub struct Instant {
    /// Whole seconds since the start of 1970.
    pub seconds: i64,
    /// Nanoseconds since the start of that second; a leap second goes on past its end.
    pub nanos: u32,
    /// The moment as messages show it.
    pub display: String,
}

/// Whether the moment of `a` lies before that of `b`.
pub open spec fn moment_lt(a: (i64, u32), b: (i64, u32)) -> bool {
    a.0 < b.0 || (a.0 == b.0 && a.1 < b.1)
}

impl Instant {
    /// The point in time, without the way it is shown.
    pub open spec fn moment(self) -> (i64, u32) {
        (self.seconds, self.nanos)
    }

    /// Whether this moment lies before that of `other`.
    pub fn is_before(&self, other: &Instant) -> (yes: bool)
        ensures
            yes == moment_lt(self.moment(), other.moment()),
    {
        self.seconds < other.seconds || (self.seconds == other.seconds && self.nanos < other.nanos)
    }
}

/// What a reading holds, by its texts.
pub open spec fn reading_view(reading: Result<Instant, String>) -> Result<
    (i64, u32, Seq<char>),
    Seq<char>,
> {
    match reading {
        Ok(instant) => Ok((instant.seconds, instant.nanos, instant.display@)),
        Err(message) => Err(message@),
    }
}

/// `chrono::DateTime::parse_from_rfc3339`: what is read, and whether anything is, depends on the
/// text alone. The moment comes as `timestamp` and `timestamp_subsec_nanos`, whose order is that
/// of the `DateTime`s, and a `DateTime` or an error is shown as its `Display` writes it.
#[verifier::external_body]
pub(crate) fn read_rfc3339(text: &str) -> (reading: Result<Instant, String>)
    ensures
        reading_view(reading) == rfc3339_reading(text@),
{
    match chrono::DateTime::parse_from_rfc3339(text) {
        Ok(moment) => Ok(
            Instant {
                seconds: moment.timestamp(),
                nanos: moment.timestamp_subsec_nanos(),
                display: moment.to_string(),
            },
        ),
        Err(error) => Err(error.to_string()),
    }
}

/// `chrono::DateTime::to_rfc3339_opts` with milliseconds and `Z`, of the moment so many
/// milliseconds after the start of 1970: the text depends on that moment alone. Where the year has
/// up to four digits, four are written, so that the text has a fixed shape, and it reads back as
/// the moment.
#[verifier::external_body]
fn write_rfc3339(millis: i64) -> (text: String)
    requires
        FIRST_FOUR_DIGIT_MILLIS <= millis <= LAST_MILLIS,
    ensures
        text@ == rfc3339_millis(millis),
        has_four_digit_year(millis) ==> reads_as(text@, millis),
        has_four_digit_year(millis) ==> is_timestamp_shaped(text@),
{
    chrono::DateTime::from_timestamp_millis(millis)
        .expect("milliseconds in the range of the calendar")
        .to_rfc3339_opts(chrono::SecondsFormat::Millis, true)
}

/// `chrono::Utc::now`, in whole seconds since the start of 1970 and the nanoseconds that follow
/// them: the clock decides. It is never before 1970 and never after the last moment that `chrono`
/// represents, since the call panics there, and it shows no leap second. Which moment it is can be
/// told from the answer alone.
#[verifier::external_body]
fn utc_now() -> (now: (i64, u32))
    ensures
        0 <= now.0,
        now.1 < 1_000_000_000,
        whole_millis(now.0 as int, now.1 as int) <= LAST_MILLIS,
        was_shown(now.0, now.1),
{
    let now = chrono::Utc::now();
    (now.timestamp(), now.timestamp_subsec_nanos())
}

/// The moment so many milliseconds after the start of 1970, in RFC 3339 with milliseconds.
pub fn format_timestamp(millis: i64) -> (text: String)
    requires
        FIRST_FOUR_DIGIT_MILLIS <= millis <= LAST_MILLIS,
    ensures
        text@ == rfc3339_millis(millis),
        has_four_digit_year(millis) ==> reads_as(text@, millis),
        has_four_digit_year(millis) ==> is_timestamp_shaped(text@),
{
    write_rfc3339(millis)
}

/// The given nanosecond of the given second since the start of 1970, in RFC 3339, cut down to
/// milliseconds.
pub fn timestamp_at(seconds: i64, nanos: u32) -> (text: String)
    requires
        is_clock_time(seconds, nanos),
    ensures
        is_timestamp_at(text@, seconds, nanos),
{
    let millis: i64 = seconds * 1000 + (nanos / 1_000_000) as i64;
    format_timestamp(millis)
}

/// Whether `text` is the timestamp of the given nanosecond of the given second: its moment cut down
/// to milliseconds, in the shape of timestamps and readable as that moment, up to the year 9999.
pub open spec fn is_timestamp_at(text: Seq<char>, seconds: i64, nanos: u32) -> bool {
    let millis = whole_millis(seconds as int, nanos as int) as i64;
    &&& text == rfc3339_millis(millis)
    &&& has_four_digit_year(millis) ==> reads_as(text, millis) && is_timestamp_shaped(text)
}

/// Whether a clock can show the given nanosecond of the given second since the start of 1970.
pub open spec fn is_clock_time(seconds: i64, nanos: u32) -> bool {
    0 <= seconds && nanos < 1_000_000_000 && whole_millis(seconds as int, nanos as int)
        <= LAST_MILLIS
}

/// The present moment in UTC, in RFC 3339, cut down to milliseconds.
pub fn current_timestamp() -> (text: String)
    ensures
        exists|seconds: i64, nanos: u32| #[trigger]
            was_shown(seconds, nanos) && is_clock_time(seconds, nanos) && is_timestamp_at(
                text@,
                seconds,
                nanos,
            ),
{
    let (seconds, nanos) = utc_now();
    assert(was_shown(seconds, nanos));
    timestamp_at(seconds, nanos)
}

/// A timestamp of the years up to 9999 has a fixed shape and reads back as its moment, cut down to
/// whole milliseconds: less than a millisecond is lost.
pub proof fn timestamps_read_back_to_the_millisecond(text: Seq<char>, seconds: i64, nanos: u32)
    requires
        is_clock_time(seconds, nanos),
        whole_millis(seconds as int, nanos as int) <= LAST_FOUR_DIGIT_MILLIS,
        is_timestamp_at(text, seconds, nanos),
    ensures
        is_timestamp_shaped(text),
        rfc3339_reading(text) is Ok,
        ({
            let read = rfc3339_reading(text)->Ok_0;
            &&& read.0 == seconds
            &&& read.1 % 1_000_000 == 0
            &&& read.1 <= nanos < read.1 + 1_000_000
        }),
{
    let millis = whole_millis(seconds as int, nanos as int);
    assert(millis / 1000 == seconds && millis % 1000 == nanos / 1_000_000);
}

/// Timestamps of two moments read back in the order of the moments.
pub proof fn timestamps_keep_their_order(
    earlier: i64,
    later: i64,
    first: Seq<char>,
    second: Seq<char>,
)
    requires
        earlier < later,
        reads_as(first, earlier),
        reads_as(second, later),
    ensures
        rfc3339_reading(first) is Ok,
        rfc3339_reading(second) is Ok,
        moment_lt(
            (rfc3339_reading(first)->Ok_0.0, rfc3339_reading(first)->Ok_0.1),
            (rfc3339_reading(second)->Ok_0.0, rfc3339_reading(second)->Ok_0.1),
        ),
{
}

} // verus!
