//! Instants in UTC, the contest period, and the textual dates and times of the log formats.
use vstd::prelude::*;

use crate::text;

verus! {

pub const NANOS_PER_SECOND: i128 = 1_000_000_000;

pub const NANOS_PER_MINUTE: i128 = 60_000_000_000;

pub const SECONDS_PER_DAY: i64 = 86_400;

/// The first second of the calendar, 1 January of the year -262143.
pub const FIRST_SECOND: i64 = -8_334_601_228_800;

/// The last second of the calendar, at the end of the year 262142.
pub const LAST_SECOND: i64 = 8_210_266_876_799;

/// The day number of 1 January 1970 where 1 January of the year 1 is day 1.
pub const EPOCH_DAY: i32 = 719_163;

/// The first day of the calendar.
pub const FIRST_DAY: i32 = -95_746_129;

/// The last day of the calendar.
pub const LAST_DAY: i32 = 95_745_399;

/// The contest begins on 1 August 2026 at 18:00 UTC.
pub const CONTEST_START_SECOND: i64 = 1_785_607_200;

/// The contest is over on 2 August 2026 at 06:00 UTC.
pub const CONTEST_END_SECOND: i64 = 1_785_650_400;

/// An instant, to the nanosecond. A leap second is written with the nanoseconds of the second before
/// it running on.
#[derive(Debug, Clone, Copy, PartialEq, Eq, Structural)]
pub struct Timestamp {
    secs: i64,
    nanos: u32,
}

/// The model of an instant: the second that it belongs to, counted from the beginning of 1970, and
/// the nanoseconds past the beginning of that second. A leap second belongs to the second before
/// it, whose nanoseconds run on.
#[verifier::ext_equal]
pub struct Instant {
    pub second: int,
    pub nanos: int,
}

/// The instant `ns` nanoseconds after the beginning of 1970, in no leap second.
pub open spec fn regular(ns: int) -> Instant {
    Instant { second: ns / 1_000_000_000, nanos: ns % 1_000_000_000 }
}

/// The instant lies in a leap second.
pub open spec fn is_leap(t: Instant) -> bool {
    t.nanos >= 1_000_000_000
}

/// The nanoseconds from the beginning of 1970 to an instant.
pub open spec fn since_1970(t: Instant) -> int {
    t.second * 1_000_000_000 + t.nanos
}

/// `a` is not later than `b`. A leap second comes before the second behind it.
pub open spec fn no_later(a: Instant, b: Instant) -> bool {
    a.second < b.second || (a.second == b.second && a.nanos <= b.nanos)
}

/// The second of its day that an instant belongs to.
pub open spec fn time_of_day(t: Instant) -> int {
    t.second % 86_400
}

/// The nanoseconds from `a` to `b`; negative where `b` comes first. Of all leap seconds only the one
/// that the earlier time of day lies in, if any, is counted.
pub open spec fn span(a: Instant, b: Instant) -> int {
    since_1970(b) - since_1970(a) + if time_of_day(a) < time_of_day(b) && is_leap(a) {
        1_000_000_000
    } else if time_of_day(b) < time_of_day(a) && is_leap(b) {
        -1_000_000_000
    } else {
        0int
    }
}

/// The instant `secs` seconds before `t`, or the first of the calendar. It lies in no leap second
/// unless it is `t` itself.
pub open spec fn seconds_before(t: Instant, secs: int) -> Instant {
    if secs == 0 {
        t
    } else if since_1970(t) - secs * 1_000_000_000 >= FIRST_SECOND * 1_000_000_000 {
        regular(since_1970(t) - secs * 1_000_000_000)
    } else {
        regular(FIRST_SECOND * 1_000_000_000)
    }
}

/// The instant `secs` seconds after `t`, or the beginning of the last second of the calendar. It lies
/// in no leap second unless it is `t` itself.
pub open spec fn seconds_after(t: Instant, secs: int) -> Instant {
    if secs == 0 {
        t
    } else if t.second + secs > LAST_SECOND {
        regular(LAST_SECOND * 1_000_000_000)
    } else if is_leap(t) {
        Instant { second: t.second + secs, nanos: t.nanos - 1_000_000_000 }
    } else {
        Instant { second: t.second + secs, nanos: t.nanos }
    }
}

/// `secs` seconds and `nanos` nanoseconds after the beginning of 1970 is an instant of the
/// calendar. A leap second is written with the nanoseconds of the second before it running on.
pub open spec fn in_calendar(secs: int, nanos: int) -> bool {
    FIRST_SECOND <= secs <= LAST_SECOND && 0 <= nanos < 2_000_000_000
}

/// The time from one instant to another is that back, negated.
pub proof fn law_span_back(a: Instant, b: Instant)
    ensures
        span(b, a) == -span(a, b),
{
}

/// Between instants in no leap second the span is the difference of their nanoseconds.
pub proof fn law_span_without_leap_second(a: Instant, b: Instant)
    requires
        !is_leap(a),
        !is_leap(b),
    ensures
        span(a, b) == since_1970(b) - since_1970(a),
{
}

impl View for Timestamp {
    type V = Instant;

    closed spec fn view(&self) -> Instant {
        Instant { second: self.secs as int, nanos: self.nanos as int }
    }
}

impl Timestamp {
    #[verifier::type_invariant]
    spec fn inv(self) -> bool {
        FIRST_SECOND <= self.secs <= LAST_SECOND && self.nanos < 2_000_000_000
    }

    /// Milliseconds since the beginning of 1970, rounded down.
    pub open spec fn ms(self) -> int {
        since_1970(self@) / 1_000_000
    }

    pub fn new(secs: i64, nanos: u32) -> (r: Option<Timestamp>)
        ensures
            r is Some <==> in_calendar(secs as int, nanos as int),
            r matches Some(t) ==> t@ == (Instant { second: secs as int, nanos: nanos as int }),
    {
        if secs < FIRST_SECOND || secs > LAST_SECOND || nanos >= 2_000_000_000 {
            None
        } else {
            Some(Timestamp { secs, nanos })
        }
    }

    /// The instant `millis` milliseconds after the beginning of 1970, where the calendar has it.
    pub fn from_millis(millis: i64) -> (r: Option<Timestamp>)
        ensures
            r is Some <==> FIRST_SECOND * 1000 <= millis < (LAST_SECOND + 1) * 1000,
            r matches Some(t) ==> t@ == regular(millis * 1_000_000),
    {
        if millis < FIRST_SECOND * 1000 || millis >= (LAST_SECOND + 1) * 1000 {
            return None;
        }
        // Shifted so that the division is of a number that is not negative.
        let shifted: u64 = (millis - FIRST_SECOND * 1000) as u64;
        let secs: i64 = (shifted / 1000) as i64 + FIRST_SECOND;
        let rest: u64 = shifted % 1000;
        let nanos: u32 = rest as u32 * 1_000_000;
        assert(secs * 1_000_000_000 + nanos == millis * 1_000_000);
        Timestamp::new(secs, nanos)
    }

    /// The second that the instant belongs to, and the nanoseconds past its beginning; in a leap
    /// second these run on beyond a second.
    pub fn parts(self) -> (r: (i64, u32))
        ensures
            self@ == (Instant { second: r.0 as int, nanos: r.1 as int }),
            in_calendar(r.0 as int, r.1 as int),
    {
        proof {
            use_type_invariant(&self);
        }
        (self.secs, self.nanos)
    }

    pub fn millis(self) -> (r: i64)
        ensures
            r == self.ms(),
    {
        proof {
            use_type_invariant(&self);
        }
        assert(self.ms() == self.secs * 1000 + self.nanos / 1_000_000);
        self.secs * 1000 + (self.nanos / 1_000_000) as i64
    }

    /// `self` is not later than `other`; a leap second comes before the second behind it.
    pub fn not_after(self, other: Timestamp) -> (r: bool)
        ensures
            r == no_later(self@, other@),
    {
        self.secs < other.secs || (self.secs == other.secs && self.nanos <= other.nanos)
    }

    /// The instant `secs` seconds before, within the calendar.
    pub fn earlier_by(self, secs: u32) -> (r: Timestamp)
        ensures
            r@ == seconds_before(self@, secs as int),
    {
        proof {
            use_type_invariant(&self);
        }
        if secs == 0 {
            return self;
        }
        let (from, nanos): (i64, u32) = if self.nanos >= 1_000_000_000 {
            (self.secs + 1, self.nanos - 1_000_000_000)
        } else {
            (self.secs, self.nanos)
        };
        let at: i64 = from - secs as i64;
        if at >= FIRST_SECOND {
            assert(since_1970(self@) - secs * 1_000_000_000 == at * 1_000_000_000 + nanos);
            Timestamp { secs: at, nanos }
        } else {
            Timestamp { secs: FIRST_SECOND, nanos: 0 }
        }
    }

    /// The instant `secs` seconds after, within the calendar.
    pub fn later_by(self, secs: u32) -> (r: Timestamp)
        ensures
            r@ == seconds_after(self@, secs as int),
    {
        proof {
            use_type_invariant(&self);
        }
        if secs == 0 {
            return self;
        }
        let at: i64 = self.secs + secs as i64;
        if at > LAST_SECOND {
            Timestamp { secs: LAST_SECOND, nanos: 0 }
        } else if self.nanos >= 1_000_000_000 {
            Timestamp { secs: at, nanos: self.nanos - 1_000_000_000 }
        } else {
            Timestamp { secs: at, nanos: self.nanos }
        }
    }

    /// The nanoseconds from `earlier` to `self`; negative where `self` comes first.
    pub fn since(self, earlier: Timestamp) -> (r: i128)
        ensures
            r == span(earlier@, self@),
            -20_000_000_000_000 * 1_000_000_000 < r < 20_000_000_000_000 * 1_000_000_000,
    {
        proof {
            use_type_invariant(&self);
            use_type_invariant(&earlier);
        }
        // The calendar begins with a day.
        let here: i64 = (self.secs - FIRST_SECOND) % SECONDS_PER_DAY;
        let there: i64 = (earlier.secs - FIRST_SECOND) % SECONDS_PER_DAY;
        assert(here == time_of_day(self@));
        assert(there == time_of_day(earlier@));
        let secs: i64 = self.secs - earlier.secs;
        let nanos: i64 = self.nanos as i64 - earlier.nanos as i64;
        let counted: i64 = if there < here && earlier.nanos >= 1_000_000_000 {
            secs + 1
        } else if here < there && self.nanos >= 1_000_000_000 {
            secs - 1
        } else {
            secs
        };
        counted as i128 * 1_000_000_000 + nanos as i128
    }
}

/// The instant falls into the contest period; the end does not belong to it. A leap second belongs
/// to it where the second before it does.
pub open spec fn in_contest(t: Instant) -> bool {
    CONTEST_START_SECOND <= t.second < CONTEST_END_SECOND
}

pub fn within_contest(t: Timestamp) -> (r: bool)
    ensures
        r == in_contest(t@),
{
    let second: i64 = t.parts().0;
    CONTEST_START_SECOND <= second && second < CONTEST_END_SECOND
}

/// An instant falls into the contest period exactly where it is not before its beginning and is
/// before its end.
pub proof fn law_contest_period(t: Instant)
    requires
        0 <= t.nanos,
    ensures
        in_contest(t) <==> no_later(regular(CONTEST_START_SECOND * 1_000_000_000), t) && !no_later(
            regular(CONTEST_END_SECOND * 1_000_000_000),
            t,
        ),
{
}

/// The beginning of the contest.
pub fn contest_start() -> (r: Timestamp)
    ensures
        r@ == regular(CONTEST_START_SECOND * 1_000_000_000),
{
    Timestamp { secs: CONTEST_START_SECOND, nanos: 0 }
}

/// The end of the contest.
pub fn contest_end() -> (r: Timestamp)
    ensures
        r@ == regular(CONTEST_END_SECOND * 1_000_000_000),
{
    Timestamp { secs: CONTEST_END_SECOND, nanos: 0 }
}

/// The model of an optional instant.
pub open spec fn opt_time(o: Option<Timestamp>) -> Option<Instant> {
    match o {
        Some(t) => Some(t@),
        None => None,
    }
}

pub fn same_time(a: Timestamp, b: Timestamp) -> (r: bool)
    ensures
        r == (a@ == b@),
{
    a.secs == b.secs && a.nanos == b.nanos
}

// ---------------------------------------------------------------------------------------------
// Dates and times as text
// ---------------------------------------------------------------------------------------------
/// What `chrono::NaiveDate::parse_from_str` reads from `text` under `format`: the day, counted
/// from 1 January of the year 1 as day 1, or the text of its error.
pub uninterp spec fn date_reading(text: Seq<char>, format: Seq<char>) -> Result<i32, Seq<char>>;

/// Calls `chrono::NaiveDate::parse_from_str`. The day is one of chrono's calendar, which runs
/// from 1 January -262143 to 31 December 262142.
#[verifier::external_body]
fn chrono_date(text: &str, format: &str) -> (r: Result<i32, String>)
    ensures
        match r {
            Ok(day) => date_reading(text@, format@) == Ok::<i32, Seq<char>>(day),
            Err(e) => date_reading(text@, format@) == Err::<i32, Seq<char>>(e@),
        },
        r matches Ok(day) ==> FIRST_DAY <= day <= LAST_DAY,
{
    chrono::NaiveDate::parse_from_str(text, format)
        .map(|date| chrono::Datelike::num_days_from_ce(&date))
        .map_err(|e| e.to_string())
}

/// What `chrono::NaiveTime::parse_from_str` reads from `text` under `format`: the seconds since
/// midnight and the nanoseconds past them, or the text of its error.
pub uninterp spec fn clock_reading(text: Seq<char>, format: Seq<char>) -> Result<
    (u32, u32),
    Seq<char>,
>;

/// Calls `chrono::NaiveTime::parse_from_str`. A time of day is less than a day after midnight;
/// its nanoseconds run on to twice a second in a leap second.
#[verifier::external_body]
fn chrono_clock(text: &str, format: &str) -> (r: Result<(u32, u32), String>)
    ensures
        match r {
            Ok(time) => clock_reading(text@, format@) == Ok::<(u32, u32), Seq<char>>(time),
            Err(e) => clock_reading(text@, format@) == Err::<(u32, u32), Seq<char>>(e@),
        },
        r matches Ok(time) ==> time.0 < 86_400 && time.1 < 2_000_000_000,
{
    chrono::NaiveTime::parse_from_str(text, format)
        .map(|t| (chrono::Timelike::num_seconds_from_midnight(&t), chrono::Timelike::nanosecond(&t)))
        .map_err(|e| e.to_string())
}

/// What `chrono::DateTime::parse_from_rfc3339` reads from `text`: the seconds since the
/// beginning of 1970 and the nanoseconds past them, or nothing.
pub uninterp spec fn rfc3339_reading(text: Seq<char>) -> Option<(i64, u32)>;

/// Calls `chrono::DateTime::parse_from_rfc3339`. Its instants lie in chrono's calendar.
#[verifier::external_body]
fn chrono_rfc3339(text: &str) -> (r: Option<(i64, u32)>)
    ensures
        r == rfc3339_reading(text@),
        r matches Some(t) ==> in_calendar(t.0 as int, t.1 as int),
{
    chrono::DateTime::parse_from_rfc3339(text)
        .ok()
        .map(|t| (t.timestamp(), t.timestamp_subsec_nanos()))
}

/// The instant that an RFC 3339 text names.
pub open spec fn rfc3339_instant(text: Seq<char>) -> Option<Instant> {
    match rfc3339_reading(text) {
        Some(t) => Some(Instant { second: t.0 as int, nanos: t.1 as int }),
        None => None,
    }
}

/// Reads an RFC 3339 date and time.
pub fn parse_rfc3339(text: &str) -> (r: Option<Timestamp>)
    ensures
        opt_time(r) == rfc3339_instant(text@),
{
    match chrono_rfc3339(text) {
        Some((secs, nanos)) => Timestamp::new(secs, nanos),
        None => None,
    }
}

/// Reads a time of day of four digits, as in `1823`: the seconds since midnight.
pub fn parse_hhmm(text: &str) -> (r: Option<u32>)
    ensures
        match r {
            Some(s) => clock_reading(text@, "%H%M"@) matches Ok(t) && t.0 == s,
            None => clock_reading(text@, "%H%M"@) is Err,
        },
        r matches Some(s) ==> s < 86_400,
{
    match chrono_clock(text, "%H%M") {
        Ok(t) => Some(t.0),
        Err(_) => None,
    }
}

/// Why an ADIF date and time name no instant.
#[derive(Debug)]
pub enum DateError {
    /// The date is no date; holds the reason.
    Date(String),
    /// The time has neither four nor six characters.
    ClockLength,
    /// The time is no time of day; holds the reason.
    Clock(String),
}

/// The model of a `DateError`.
pub enum DateFault {
    Date(Seq<char>),
    ClockLength,
    Clock(Seq<char>),
}

impl View for DateError {
    type V = DateFault;

    open spec fn view(&self) -> DateFault {
        match self {
            DateError::Date(s) => DateFault::Date(s@),
            DateError::ClockLength => DateFault::ClockLength,
            DateError::Clock(s) => DateFault::Clock(s@),
        }
    }
}

/// The format of an ADIF time of `bytes` bytes.
pub open spec fn clock_format(bytes: nat) -> Option<Seq<char>> {
    if bytes == 4 {
        Some("%H%M"@)
    } else if bytes == 6 {
        Some("%H%M%S"@)
    } else {
        None
    }
}

/// The instant that a day and a time of day make together; the time is missing where its text has
/// no possible length.
pub open spec fn moment(
    day: Result<i32, Seq<char>>,
    clock: Option<Result<(u32, u32), Seq<char>>>,
) -> Result<Instant, DateFault> {
    match (day, clock) {
        (Err(e), _) => Err(DateFault::Date(e)),
        (Ok(_), None) => Err(DateFault::ClockLength),
        (Ok(_), Some(Err(e))) => Err(DateFault::Clock(e)),
        (Ok(d), Some(Ok(t))) => {
            Ok(Instant { second: (d - EPOCH_DAY) * 86_400 + t.0, nanos: t.1 as int })
        },
    }
}

/// The model of a reading.
pub open spec fn reading<T>(r: Result<T, String>) -> Result<T, Seq<char>> {
    match r {
        Ok(v) => Ok(v),
        Err(e) => Err(e@),
    }
}

/// The model of an optional reading.
pub open spec fn opt_reading<T>(r: Option<Result<T, String>>) -> Option<Result<T, Seq<char>>> {
    match r {
        Some(v) => Some(reading(v)),
        None => None,
    }
}

/// Makes an instant of a day of the calendar and a time of day.
pub fn combine(day: Result<i32, String>, clock: Option<Result<(u32, u32), String>>) -> (r: Result<
    Timestamp,
    DateError,
>)
    requires
        day matches Ok(d) ==> FIRST_DAY <= d <= LAST_DAY,
        clock matches Some(Ok(t)) ==> t.0 < 86_400 && t.1 < 2_000_000_000,
    ensures
        match r {
            Ok(t) => moment(reading(day), opt_reading(clock)) == Ok::<Instant, DateFault>(t@),
            Err(e) => moment(reading(day), opt_reading(clock)) == Err::<Instant, DateFault>(e@),
        },
{
    let day = match day {
        Ok(d) => d,
        Err(e) => return Err(DateError::Date(e)),
    };
    match clock {
        None => Err(DateError::ClockLength),
        Some(Err(e)) => Err(DateError::Clock(e)),
        Some(Ok((secs, nanos))) => {
            let at: i64 = (day - EPOCH_DAY) as i64 * SECONDS_PER_DAY + secs as i64;
            match Timestamp::new(at, nanos) {
                Some(t) => Ok(t),
                None => Err(DateError::ClockLength),
            }
        },
    }
}

/// The instant that an ADIF date and time name together: the date as `YYYYMMDD`, the time as `HHMM`
/// or `HHMMSS`.
pub open spec fn adif_instant(date: Seq<char>, clock: Seq<char>) -> Result<Instant, DateFault> {
    let value = text::trimmed(clock);
    moment(
        date_reading(text::trimmed(date), "%Y%m%d"@),
        match clock_format(vstd::utf8::encode_utf8(value).len()) {
            None => None,
            Some(format) => Some(clock_reading(value, format)),
        },
    )
}

/// Reads an ADIF date and time.
pub fn parse_timestamp(date: &str, clock: &str) -> (r: Result<Timestamp, DateError>)
    ensures
        match r {
            Ok(t) => adif_instant(date@, clock@) == Ok::<Instant, DateFault>(t@),
            Err(e) => adif_instant(date@, clock@) == Err::<Instant, DateFault>(e@),
        },
{
    let day = chrono_date(text::trim(date).as_str(), "%Y%m%d");
    let value = text::trim(clock);
    let time = match value.as_str().as_bytes().len() {
        4 => Some(chrono_clock(value.as_str(), "%H%M")),
        6 => Some(chrono_clock(value.as_str(), "%H%M%S")),
        _ => None,
    };
    combine(day, time)
}

// ---------------------------------------------------------------------------------------------
// Laws of time
// ---------------------------------------------------------------------------------------------
/// The contest is that of 2026: it begins at 18 hours on the day that 56 years, 14 leap days and the
/// seven months before August lead to from the beginning of 1970, and lasts twelve hours.
pub proof fn law_contest_dates(t: Instant)
    ensures
        in_contest(t) <==> ((56 * 365 + 14 + 31 + 28 + 31 + 30 + 31 + 30 + 31) * 24 + 18) * 3600
            <= t.second < ((56 * 365 + 14 + 31 + 28 + 31 + 30 + 31 + 30 + 31) * 24 + 30) * 3600,
{
}

/// Instants stand in one order: of two one is not later than the other, both only where they are the
/// same, and what is not later than something not later is not later.
pub proof fn law_order_of_instants(a: Instant, b: Instant, c: Instant)
    ensures
        no_later(a, b) || no_later(b, a),
        no_later(a, b) && no_later(b, a) ==> a == b,
        no_later(a, b) && no_later(b, c) ==> no_later(a, c),
        a.second < b.second ==> !no_later(b, a),
        a.second == b.second && a.nanos < b.nanos ==> !no_later(b, a),
{
}

/// The instant some seconds before or after one in no leap second is that many seconds away, where
/// the calendar has it.
pub proof fn law_seconds_away(t: Instant, secs: int)
    requires
        in_calendar(t.second, t.nanos),
        !is_leap(t),
        0 <= secs,
    ensures
        t.second - secs >= FIRST_SECOND ==> span(seconds_before(t, secs), t) == secs * 1_000_000_000,
        t.second + secs <= LAST_SECOND ==> span(t, seconds_after(t, secs)) == secs * 1_000_000_000,
        no_later(seconds_before(t, secs), t),
        seconds_before(t, secs).second >= FIRST_SECOND,
        seconds_after(t, secs).second <= LAST_SECOND,
{
}

/// A day and a time of day make the instant that many days and seconds after the beginning of 1970,
/// which is day 719163; a missing day, a time of no possible length and a missing time are told
/// apart, the day first.
pub proof fn law_day_and_time(day: i32, secs: u32, nanos: u32, fault: Seq<char>, other: Seq<char>)
    ensures
        moment(Ok(day), Some(Ok((secs, nanos)))) == Ok::<Instant, DateFault>(
            Instant { second: (day - 719_163) * 24 * 3600 + secs, nanos: nanos as int },
        ),
        moment(Err(fault), None) == Err::<Instant, DateFault>(DateFault::Date(fault)),
        moment(Err(fault), Some(Err(other))) == Err::<Instant, DateFault>(DateFault::Date(fault)),
        moment(Err(fault), Some(Ok((secs, nanos)))) == Err::<Instant, DateFault>(
            DateFault::Date(fault),
        ),
        moment(Ok(day), None) == Err::<Instant, DateFault>(DateFault::ClockLength),
        moment(Ok(day), Some(Err(other))) == Err::<Instant, DateFault>(DateFault::Clock(other)),
{
}

/// A time of four bytes is one of hours and minutes, one of six has seconds too, and no other length
/// is one. Space around the date and the time does not matter.
pub proof fn law_adif_times(date: Seq<char>, clock: Seq<char>)
    ensures
        adif_instant(text::trimmed(date), text::trimmed(clock)) == adif_instant(date, clock),
        ({
            let n = vstd::utf8::encode_utf8(text::trimmed(clock)).len();
            let day = date_reading(text::trimmed(date), "%Y%m%d"@);
            &&& n == 4 ==> adif_instant(date, clock) == moment(
                day,
                Some(clock_reading(text::trimmed(clock), "%H%M"@)),
            )
            &&& n == 6 ==> adif_instant(date, clock) == moment(
                day,
                Some(clock_reading(text::trimmed(clock), "%H%M%S"@)),
            )
            &&& n != 4 && n != 6 ==> adif_instant(date, clock) is Err
        }),
{
    text::law_trimmed(date);
    text::law_trimmed(clock);
}

/// The calendar goes from its first second to its last, and a leap second goes on for another.
pub proof fn law_range_of_the_calendar(secs: int, nanos: int)
    ensures
        in_calendar(secs, nanos) <==> -8_334_601_228_800 <= secs <= 8_210_266_876_799 && 0 <= nanos
            < 2_000_000_000,
{
}

/// A leap second that the earlier time of day lies in is counted once, whichever instant has it, and
/// no other is; times of day begin anew every 86 400 seconds.
pub proof fn law_leap_seconds_are_counted_once(a: Instant, b: Instant)
    requires
        0 <= a.nanos < 2_000_000_000,
        0 <= b.nanos < 2_000_000_000,
    ensures
        ({
            let difference = (b.second - a.second) * 1_000_000_000 + (b.nanos - a.nanos);
            let x = a.second % 86_400;
            let y = b.second % 86_400;
            &&& x == y ==> span(a, b) == difference
            &&& x < y && a.nanos >= 1_000_000_000 ==> span(a, b) == difference + 1_000_000_000
            &&& x < y && a.nanos < 1_000_000_000 ==> span(a, b) == difference
            &&& x > y && b.nanos >= 1_000_000_000 ==> span(a, b) == difference - 1_000_000_000
            &&& x > y && b.nanos < 1_000_000_000 ==> span(a, b) == difference
        }),
{
}

} // verus!
