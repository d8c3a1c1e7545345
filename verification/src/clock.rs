//! Times of day, in microseconds since the start of 1970 in UTC.
use vstd::prelude::*;

verus! {

/// The first microsecond of the year -262143, the earliest time on the calendar.
pub const MIN_MICROS: i64 = -8334601228800000000;

/// The last microsecond of the year 262142, the latest time on the calendar.
pub const MAX_MICROS: i64 = 8210266876799999999;

/// Whether a time is on the calendar.
pub open spec fn on_calendar(micros: i64) -> bool {
    MIN_MICROS <= micros <= MAX_MICROS
}

/// `chrono::DateTime::from_timestamp_micros`: there is a date for exactly the
/// times from the year -262143 through the year 262142.
#[verifier::external_body]
pub(crate) fn has_date(micros: i64) -> (r: bool)
    ensures
        r == on_calendar(micros),
{
    chrono::DateTime::from_timestamp_micros(micros).is_some()
}

/// A reading of the machine's clock. Only the clock makes one.
pub struct Reading {
    micros: i64,
}

impl Reading {
    /// The time that was read.
    pub closed spec fn micros(self) -> i64 {
        self.micros
    }

    /// The time that was read.
    pub(crate) fn value(&self) -> (r: i64)
        ensures
            r == self.micros(),
    {
        self.micros
    }
}

/// A reading is the number of microseconds that the clock gave, as it gave it.
proof fn law_reading_is_what_the_clock_gave(reading: Reading)
    ensures
        reading.micros() == reading.micros,
{
}

/// `chrono::Utc::now` in whole microseconds: a time on the calendar, not before
/// 1970. Which one depends on the machine's clock.
#[verifier::external_body]
pub(crate) fn now_micros() -> (r: Reading)
    ensures
        0 <= r.micros() <= MAX_MICROS,
{
    Reading { micros: chrono::Utc::now().timestamp_micros() }
}

/// A time as whole seconds and the nanoseconds past them.
#[derive(Clone, Copy, PartialEq, Eq, Debug, Structural)]
pub struct Timestamp {
    pub seconds: i64,
    pub nanos: i32,
}

/// The whole seconds and the nanoseconds past them of a time. Times before
/// 1970 round down, so that the nanoseconds are never negative.
pub open spec fn timestamp_of(micros: i64) -> Timestamp {
    Timestamp {
        seconds: (micros as int / 1_000_000) as i64,
        nanos: (micros as int % 1_000_000 * 1_000) as i32,
    }
}

/// The timestamp of a time.
pub fn timestamp(micros: i64) -> (r: Timestamp)
    ensures
        r == timestamp_of(micros),
        r.seconds == micros as int / 1_000_000,
        r.nanos == micros as int % 1_000_000 * 1_000,
{
    if micros >= 0 {
        Timestamp {
            seconds: micros / 1_000_000,
            nanos: (micros % 1_000_000) as i32 * 1_000,
        }
    } else {
        let below: i64 = -(micros + 1);
        Timestamp {
            seconds: -(below / 1_000_000) - 1,
            nanos: (999_999 - below % 1_000_000) as i32 * 1_000,
        }
    }
}

/// A timestamp is the time it was made from: its seconds and the nanoseconds past
/// them add up to it, and the nanoseconds make less than a second.
pub proof fn law_timestamp_adds_up(micros: i64)
    ensures
        timestamp_of(micros).seconds * 1_000_000_000 + timestamp_of(micros).nanos == micros * 1_000,
        0 <= timestamp_of(micros).nanos < 1_000_000_000,
{
}

/// The days from the start of 1970 to the start of a year.
pub open spec fn days_to_year(year: int) -> int {
    365 * (year - 1970) + ((year - 1) / 4 - 1969int / 4) - ((year - 1) / 100 - 1969int / 100) + ((year
        - 1) / 400 - 1969int / 400)
}

/// The calendar goes from the first microsecond of the year -262143 to the last
/// one of the year 262142, with nothing left out.
pub proof fn law_calendar_goes_from_its_first_year_to_its_last(micros: i64)
    ensures
        on_calendar(micros) <==> days_to_year(-262143) * 86_400_000_000 <= micros
            && micros < days_to_year(262143) * 86_400_000_000,
        MAX_MICROS + 1 == days_to_year(262143) * 86_400_000_000,
        MIN_MICROS == days_to_year(-262143) * 86_400_000_000,
{
}

} // verus!
