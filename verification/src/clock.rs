//! The time that storages see, and its text on disk.

use vstd::prelude::*;

use crate::text::concat2;

verus! {

/// The first second that a timestamp can name: the start of the year -262143.
pub const MIN_SECS: i64 = -8334601228800;

/// The last second that a timestamp can name: the end of the year 262142.
pub const MAX_SECS: i64 = 8210266876799;

/// A moment in UTC: whole seconds since the start of 1970, and the nanoseconds
/// after them. Nanoseconds from one to two thousand million stand for a leap
/// second.
#[derive(Debug, Clone, Copy, PartialEq, Eq, Structural)]
pub struct Timestamp {
    pub secs: i64,
    pub nanos: u32,
}

impl Timestamp {
    /// Whether the value names a moment that exists in the calendar.
    pub open spec fn valid(self) -> bool {
        &&& MIN_SECS <= self.secs <= MAX_SECS
        &&& self.nanos < 2_000_000_000
        &&& self.nanos >= 1_000_000_000 ==> self.secs as int % 60 == 59
    }

    /// Whether the value names a moment outside any leap second.
    pub open spec fn ordinary(self) -> bool {
        self.valid() && self.nanos < 1_000_000_000
    }

    /// Nanoseconds since the start of 1970.
    pub open spec fn instant(self) -> int {
        self.secs * 1_000_000_000 + self.nanos
    }

    /// Milliseconds since the start of 1970, rounded down.
    pub open spec fn millis(self) -> int {
        self.secs * 1000 + self.nanos as int / 1_000_000
    }

    /// The same moment without what is shorter than a microsecond.
    pub open spec fn to_micros(self) -> Timestamp {
        Timestamp { secs: self.secs, nanos: (self.nanos / 1000 * 1000) as u32 }
    }

    /// Milliseconds since the start of 1970.
    pub fn timestamp_millis(&self) -> (r: i64)
        requires
            self.valid(),
        ensures
            r == self.millis(),
    {
        self.secs * 1000 + (self.nanos / 1_000_000) as i64
    }
}

/// Where `t` moved by `millis` would be, if the calendar reaches that far.
pub open spec fn moved_by(t: Timestamp, millis: int, r: Option<Timestamp>) -> bool {
    let target = t.instant() + millis * 1_000_000;
    match r {
        Some(u) => u.ordinary() && u.instant() == target,
        None => target < MIN_SECS * 1_000_000_000 || target >= (MAX_SECS + 1) * 1_000_000_000,
    }
}

/// `chrono::Utc::now`: some moment not before 1970 and not in a leap second.
/// Which one depends on when it is called; it panics where the system clock is
/// set before 1970.
#[verifier::external_body]
fn utc_now() -> (r: Timestamp)
    ensures
        r.ordinary(),
        r.secs >= 0,
{
    let now = chrono::Utc::now();
    Timestamp { secs: now.timestamp(), nanos: now.timestamp_subsec_nanos() }
}

/// Whether `t` is a moment that the system's clock showed when it was read.
pub closed spec fn is_clock_reading(t: Timestamp) -> bool {
    call_ensures(utc_now, (), t)
}

/// What the system's clock shows.
pub(crate) fn read_clock() -> (r: Timestamp)
    ensures
        is_clock_reading(r),
        r.ordinary(),
        r.secs >= 0,
{
    utc_now()
}

/// `chrono::DateTime::checked_add_signed` with `chrono::TimeDelta::milliseconds`:
/// the moment that many milliseconds later (or earlier, where negative), or none
/// where the calendar does not reach that far.
#[verifier::external_body]
fn add_millis(t: Timestamp, millis: i64) -> (r: Option<Timestamp>)
    requires
        t.ordinary(),
        millis > i64::MIN,
    ensures
        moved_by(t, millis as int, r),
{
    let start = chrono::DateTime::from_timestamp(t.secs, t.nanos)?;
    let end = start.checked_add_signed(chrono::TimeDelta::milliseconds(millis))?;
    Some(Timestamp { secs: end.timestamp(), nanos: end.timestamp_subsec_nanos() })
}

/// A source of the current time. `None` stands for a moment that the calendar
/// does not reach.
pub trait Clock {
    /// The current time.
    fn now(&self) -> (r: Option<Timestamp>)
        ensures
            r matches Some(t) ==> t.ordinary(),
    ;

    /// The current time in milliseconds since the start of 1970.
    fn now_millis(&self) -> (r: Option<i64>)
    ;
}

/// The clock of the system.
#[derive(Debug, Clone, Copy)]
pub struct SystemClock;

impl Clock for SystemClock {
    /// The current time, which the calendar always reaches: what the system's
    /// clock showed.
    fn now(&self) -> (r: Option<Timestamp>)
        ensures
            r matches Some(t) && is_clock_reading(t) && t.secs >= 0,
    {
        Some(read_clock())
    }

    /// What the system's clock showed, in milliseconds.
    fn now_millis(&self) -> (r: Option<i64>)
        ensures
            r matches Some(ms) && 0 <= ms <= MAX_SECS * 1000 + 999,
            exists|t: Timestamp| #[trigger] is_clock_reading(t) && r == Some(t.millis() as i64),
    {
        let t = read_clock();
        Some(t.timestamp_millis())
    }
}

/// A clock that runs a settable number of milliseconds ahead of the system's.
#[derive(Debug)]
pub struct TestClock {
    offset_millis: i64,
}

/// The time that a clock with the given offset shows when it is really `now`.
pub fn shifted_time(now: Timestamp, offset_millis: i64) -> (r: Option<Timestamp>)
    requires
        now.ordinary(),
        now.secs >= 0,
    ensures
        moved_by(now, offset_millis as int, r),
{
    if offset_millis == i64::MIN {
        None
    } else {
        add_millis(now, offset_millis)
    }
}

/// The milliseconds that a clock with the given offset shows when it is really
/// `now`.
pub fn shifted_millis(now: Timestamp, offset_millis: i64) -> (r: Option<i64>)
    requires
        now.valid(),
    ensures
        r == if i64::MIN <= now.millis() + offset_millis <= i64::MAX {
            Some((now.millis() + offset_millis) as i64)
        } else {
            None::<i64>
        },
{
    now.timestamp_millis().checked_add(offset_millis)
}

impl TestClock {
    /// How many milliseconds the clock is ahead.
    pub closed spec fn spec_offset(&self) -> i64 {
        self.offset_millis
    }

    /// A clock that shows the system's time.
    pub fn new() -> (r: Self)
        ensures
            r.spec_offset() == 0,
    {
        TestClock { offset_millis: 0 }
    }

    /// Moves the clock by `delta_millis`, backwards where negative. The offset
    /// wraps around at the ends of its range.
    pub fn advance(&mut self, delta_millis: i64)
        ensures
            final(self).spec_offset() == old(self).spec_offset().wrapping_add(delta_millis),
    {
        self.offset_millis = self.offset_millis.wrapping_add(delta_millis);
    }

    /// Sets how many milliseconds the clock is ahead.
    pub fn set_offset(&mut self, offset_millis: i64)
        ensures
            final(self).spec_offset() == offset_millis,
    {
        self.offset_millis = offset_millis;
    }

    /// How many milliseconds the clock is ahead.
    pub fn offset(&self) -> (r: i64)
        ensures
            r == self.spec_offset(),
    {
        self.offset_millis
    }
}

impl Clock for TestClock {
    /// What the system's clock showed, moved by the offset. The calendar reaches
    /// that far back from any reading, as long as the offset itself is within it.
    fn now(&self) -> (r: Option<Timestamp>)
        ensures
            MIN_SECS * 1000 <= self.spec_offset() <= 0 ==> r is Some,
            exists|n: Timestamp|
                {
                    &&& #[trigger] is_clock_reading(n)
                    &&& n.ordinary()
                    &&& n.secs >= 0
                    &&& moved_by(n, self.spec_offset() as int, r)
                },
    {
        let n = read_clock();
        shifted_time(n, self.offset_millis)
    }

    /// What the system's clock showed, in milliseconds, with the offset added
    /// where the sum fits.
    fn now_millis(&self) -> (r: Option<i64>)
        ensures
            self.spec_offset() <= i64::MAX - MAX_SECS * 1000 - 999 ==> r is Some,
            exists|n: Timestamp|
                {
                    &&& #[trigger] is_clock_reading(n)
                    &&& n.ordinary()
                    &&& n.secs >= 0
                    &&& r == if i64::MIN <= n.millis() + self.spec_offset() <= i64::MAX {
                        Some((n.millis() + self.spec_offset()) as i64)
                    } else {
                        None::<i64>
                    }
                },
    {
        let n = read_clock();
        shifted_millis(n, self.offset_millis)
    }
}

/// How a timestamp is written, up to its offset from UTC.
pub const DATETIME_FORMAT: &'static str = "%Y-%m-%dT%H:%M:%S%.6f";

/// How a timestamp with an offset from UTC is read.
pub const DATETIME_OFFSET_FORMAT: &'static str = "%Y-%m-%dT%H:%M:%S%.f%:z";

/// How a timestamp without an offset is read.
pub const DATETIME_NAIVE_FORMAT: &'static str = "%Y-%m-%dT%H:%M:%S%.f";

/// What `chrono::DateTime::format` writes for the moment `secs` and `nanos`.
pub uninterp spec fn formatted_time(secs: i64, nanos: u32, format: Seq<char>) -> Seq<char>;

/// What `chrono::DateTime::parse_from_str` reads: seconds and nanoseconds in UTC.
pub uninterp spec fn parsed_offset_time(s: Seq<char>, format: Seq<char>) -> Option<(i64, u32)>;

/// What `chrono::DateTime::parse_from_rfc3339` reads: seconds and nanoseconds in
/// UTC.
pub uninterp spec fn parsed_rfc3339(s: Seq<char>) -> Option<(i64, u32)>;

/// What `chrono::NaiveDateTime::parse_from_str` reads, taken as UTC, or the text
/// of its error.
pub uninterp spec fn parsed_naive_time(s: Seq<char>, format: Seq<char>) -> Result<
    (i64, u32),
    Seq<char>,
>;

/// `chrono::DateTime::format`: the text of a moment. The format must be one that
/// is known to be well formed, as others make it panic.
#[verifier::external_body]
fn format_time(t: Timestamp, format: &str) -> (r: String)
    requires
        t.valid(),
        format@ == DATETIME_FORMAT@,
    ensures
        r@ == formatted_time(t.secs, t.nanos, format@),
{
    chrono::DateTime::from_timestamp(t.secs, t.nanos).unwrap().format(format).to_string()
}

/// Whether `s` is what an ordinary moment between the years 1970 and 9999 is
/// written as.
pub open spec fn written_as(t: Timestamp, s: Seq<char>) -> bool {
    &&& 0 <= t.secs < 253402300800
    &&& t.ordinary()
    &&& s == datetime_text(t)
}

/// `chrono::DateTime::parse_from_str`, with the outcome taken to UTC. Text that
/// was written by [`serialize_datetime`] is read back to the microsecond.
#[verifier::external_body]
fn parse_offset_time(s: &str, format: &str) -> (r: Option<Timestamp>)
    ensures
        r == ts_of(parsed_offset_time(s@, format@)),
        r matches Some(t) ==> t.valid(),
        format@ == DATETIME_OFFSET_FORMAT@ ==> forall|t: Timestamp|
            written_as(t, s@) ==> r == Some(#[trigger] t.to_micros()),
{
    let t = chrono::DateTime::parse_from_str(s, format).ok()?.with_timezone(&chrono::Utc);
    Some(Timestamp { secs: t.timestamp(), nanos: t.timestamp_subsec_nanos() })
}

/// `chrono::DateTime::parse_from_rfc3339`, with the outcome taken to UTC.
#[verifier::external_body]
fn parse_rfc3339(s: &str) -> (r: Option<Timestamp>)
    ensures
        r == ts_of(parsed_rfc3339(s@)),
        r matches Some(t) ==> t.valid(),
{
    let t = chrono::DateTime::parse_from_rfc3339(s).ok()?.with_timezone(&chrono::Utc);
    Some(Timestamp { secs: t.timestamp(), nanos: t.timestamp_subsec_nanos() })
}

/// `chrono::NaiveDateTime::parse_from_str`, with the outcome taken as UTC; the
/// error is the text of chrono's own.
#[verifier::external_body]
fn parse_naive_time(s: &str, format: &str) -> (r: Result<Timestamp, String>)
    ensures
        match (r, parsed_naive_time(s@, format@)) {
            (Ok(t), Ok(p)) => t == (Timestamp { secs: p.0, nanos: p.1 }) && t.valid(),
            (Err(e), Err(text)) => e@ == text,
            _ => false,
        },
{
    let t = chrono::NaiveDateTime::parse_from_str(s, format).map_err(|e| e.to_string())?.and_utc();
    Ok(Timestamp { secs: t.timestamp(), nanos: t.timestamp_subsec_nanos() })
}

/// The timestamp made of seconds and nanoseconds.
pub open spec fn ts_of(p: Option<(i64, u32)>) -> Option<Timestamp> {
    match p {
        Some(p) => Some(Timestamp { secs: p.0, nanos: p.1 }),
        None => None,
    }
}

/// The text of a timestamp on disk: six digits of a second, and UTC.
pub open spec fn datetime_text(t: Timestamp) -> Seq<char> {
    formatted_time(t.secs, t.nanos, DATETIME_FORMAT@) + "+00:00"@
}

/// What the text of a timestamp stands for: with an offset, in the form of
/// RFC 3339, or without an offset, whichever fits first.
pub open spec fn datetime_of_text(s: Seq<char>) -> Option<Timestamp> {
    if parsed_offset_time(s, DATETIME_OFFSET_FORMAT@) is Some {
        ts_of(parsed_offset_time(s, DATETIME_OFFSET_FORMAT@))
    } else if parsed_rfc3339(s) is Some {
        ts_of(parsed_rfc3339(s))
    } else {
        match parsed_naive_time(s, DATETIME_NAIVE_FORMAT@) {
            Ok(p) => ts_of(Some(p)),
            Err(_) => None,
        }
    }
}

/// The text of a timestamp on disk.
pub fn serialize_datetime(t: &Timestamp) -> (r: String)
    requires
        t.valid(),
    ensures
        r@ == datetime_text(*t),
{
    let text = format_time(*t, DATETIME_FORMAT);
    concat2(text.as_str(), "+00:00")
}

/// Picks the first of the three readings of a timestamp's text that succeeded.
pub fn first_reading(
    with_offset: Option<Timestamp>,
    rfc3339: Option<Timestamp>,
    naive: Result<Timestamp, String>,
) -> (r: Result<Timestamp, String>)
    ensures
        r == if with_offset is Some {
            Ok::<Timestamp, String>(with_offset->0)
        } else if rfc3339 is Some {
            Ok(rfc3339->0)
        } else {
            naive
        },
{
    if let Some(t) = with_offset {
        return Ok(t);
    }
    if let Some(t) = rfc3339 {
        return Ok(t);
    }
    naive
}

/// Reads the text of a timestamp. What [`serialize_datetime`] wrote comes back to
/// the microsecond; the error is that of the last attempt.
pub fn deserialize_datetime(s: &str) -> (r: Result<Timestamp, String>)
    ensures
        match r {
            Ok(t) => datetime_of_text(s@) == Some(t) && t.valid(),
            Err(e) => {
                &&& datetime_of_text(s@) is None
                &&& parsed_naive_time(s@, DATETIME_NAIVE_FORMAT@) == Err::<(i64, u32), Seq<char>>(
                    e@,
                )
            },
        },
        forall|t: Timestamp|
            written_as(t, s@) ==> r == Ok::<Timestamp, String>(#[trigger] t.to_micros()),
{
    first_reading(
        parse_offset_time(s, DATETIME_OFFSET_FORMAT),
        parse_rfc3339(s),
        parse_naive_time(s, DATETIME_NAIVE_FORMAT),
    )
}

} // verus!
