//! Spots of the Reverse Beacon Network: the lines of the feed, repeated reports, and the pace of
//! new connections.
use vstd::prelude::*;

use crate::frequency;
use crate::frequency::Frequency;
use crate::model;
use crate::model::Band;
use crate::numbers;
use crate::string_map::Duplicate;
use crate::text;
use crate::text::CharClass;
use crate::time;
use crate::time::Instant;
use crate::time::Timestamp;

verus! {

// ---------------------------------------------------------------------------------------------
// Reports
// ---------------------------------------------------------------------------------------------
/// A report of the feed.
#[derive(Debug)]
pub struct RawSpot {
    pub call: String,
    pub frequency_khz: Frequency,
    pub band: Band,
    pub time: Timestamp,
    pub spotter: String,
    pub snr_db: Option<i16>,
    pub speed_wpm: Option<u16>,
}

/// The model of a report.
#[verifier::ext_equal]
pub struct RawModel {
    pub call: Seq<char>,
    pub frequency: Frequency,
    pub band: Band,
    pub time: Instant,
    pub spotter: Seq<char>,
    pub snr_db: Option<i16>,
    pub speed_wpm: Option<u16>,
}

impl View for RawSpot {
    type V = RawModel;

    open spec fn view(&self) -> RawModel {
        RawModel {
            call: self.call@,
            frequency: self.frequency_khz,
            band: self.band,
            time: self.time@,
            spotter: self.spotter@,
            snr_db: self.snr_db,
            speed_wpm: self.speed_wpm,
        }
    }
}

impl Duplicate for RawSpot {
    fn duplicate(&self) -> (r: Self) {
        RawSpot {
            call: self.call.clone(),
            frequency_khz: self.frequency_khz,
            band: self.band,
            time: self.time,
            spotter: self.spotter.clone(),
            snr_db: self.snr_db,
            speed_wpm: self.speed_wpm,
        }
    }
}

/// The second with which the day of `second` begins.
pub open spec fn day_start(second: int) -> int {
    second / 86_400 * 86_400
}

/// The instant with which `second` begins.
pub open spec fn at_second(second: int) -> Instant {
    Instant { second, nanos: 0 }
}

/// `second`, or the same time on the day before or after it, whichever is within twelve hours of
/// `now`.
pub open spec fn nearest_day(second: int, now: Instant) -> int {
    if time::span(now, at_second(second)) > 43_200_000_000_000 {
        second - 86_400
    } else if time::span(at_second(second), now) > 43_200_000_000_000 {
        second + 86_400
    } else {
        second
    }
}

pub open spec fn within_half_a_day(at: Instant, now: Instant) -> bool {
    -43_200_000_000_000 <= time::span(now, at) <= 43_200_000_000_000
}

/// The digits of a token such as `1823Z`.
pub open spec fn clock_digits(token: Seq<char>) -> Option<Seq<char>> {
    if token.len() > 0 && token.last() == 'Z' && vstd::utf8::encode_utf8(token.drop_last()).len()
        == 4 {
        Some(token.drop_last())
    } else {
        None
    }
}

/// The instant near `now` at which a time of day, in seconds since midnight, is reached in UTC, to
/// the minute.
pub open spec fn clock_near(seconds: int, now: Instant) -> Option<Instant> {
    let at = nearest_day(day_start(now.second) + seconds / 60 * 60, now);
    if time::FIRST_SECOND <= at <= time::LAST_SECOND {
        Some(at_second(at))
    } else {
        None
    }
}

/// The instant near `now` that a token such as `1823Z` names: an hour and a minute in UTC.
pub open spec fn clock_token(token: Seq<char>, now: Instant) -> Option<Instant> {
    match clock_digits(token) {
        Some(digits) => match time::clock_reading(digits, "%H%M"@) {
            Ok(t) => clock_near(t.0 as int, now),
            Err(_) => None,
        },
        None => None,
    }
}

/// The instant that the first token that names one names.
pub open spec fn first_clock(tokens: Seq<Seq<char>>, now: Instant) -> Option<Instant>
    decreases tokens.len(),
{
    if tokens.len() == 0 {
        None
    } else {
        match clock_token(tokens[0], now) {
            Some(t) => Some(t),
            None => first_clock(tokens.skip(1), now),
        }
    }
}

/// The token before the first one, from the second on, that is `unit`.
pub open spec fn amount(tokens: Seq<Seq<char>>, unit: Seq<char>) -> Option<Seq<char>>
    decreases tokens.len(),
{
    if tokens.len() < 2 {
        None
    } else if text::same_letters(tokens[1], unit) {
        Some(tokens[0])
    } else {
        amount(tokens.skip(1), unit)
    }
}

/// The signal strength that a line reports.
pub open spec fn strength_in(tokens: Seq<Seq<char>>) -> Option<i16> {
    match amount(tokens, "dB"@) {
        Some(t) => match numbers::signed_reading(t, 32_767) {
            Some(n) => Some(n as i16),
            None => None,
        },
        None => None,
    }
}

/// The speed that a line reports.
pub open spec fn speed_in(tokens: Seq<Seq<char>>) -> Option<u16> {
    match amount(tokens, "WPM"@) {
        Some(t) => match numbers::unsigned_reading(t, 65_535) {
            Ok(n) => Some(n as u16),
            Err(_) => None,
        },
        None => None,
    }
}

/// The report that a line makes at `now` where it names the instant `named`. A line makes one if
/// it names a skimmer, a frequency on a contest band, a plausible callsign and a speed in words
/// per minute, as those of Morse code do.
pub open spec fn report_with(line: Seq<char>, named: Option<Instant>, now: Instant) -> Option<RawModel> {
    let t = text::words(line);
    if t.len() < 5 || !text::same_letters(t[0], "DX"@) || t[1] != "de"@ {
        None
    } else {
        match (frequency::kilohertz_reading(t[3]), speed_in(t)) {
            (Some(f), Some(speed)) => match model::band_of(f) {
                Some(band) => {
                    let call = model::normalized(t[4]);
                    if !model::plausible(call) {
                        None
                    } else {
                        Some(
                            RawModel {
                                call,
                                frequency: Frequency { picohertz: f as i128 },
                                band,
                                time: match named {
                                    Some(at) => at,
                                    None => now,
                                },
                                spotter: text::upper(text::strip_end(t[2], CharClass::Is(':'))),
                                snr_db: strength_in(t),
                                speed_wpm: Some(speed),
                            },
                        )
                    }
                },
                None => None,
            },
            _ => None,
        }
    }
}

/// The report that a line makes at `now`.
pub open spec fn report_of(line: Seq<char>, now: Instant) -> Option<RawModel> {
    report_with(line, first_clock(text::words(line), now), now)
}

/// The digits of a token such as `1823Z`.
pub fn find_clock_digits(token: &str) -> (r: Option<String>)
    ensures
        text::opt_text(r) == clock_digits(token@),
{
    let v = text::chars_of(token);
    if v.len() == 0 || v[v.len() - 1] != 'Z' {
        return None;
    }
    let digits = text::string_between(&v, 0, v.len() - 1);
    assert(digits@ =~= token@.drop_last());
    if digits.as_str().as_bytes().len() != 4 {
        return None;
    }
    Some(digits)
}

/// The instant near `now` at which a time of day, in seconds since midnight, is reached in UTC, to
/// the minute.
pub fn find_clock_near(seconds: u32, now: Timestamp) -> (r: Option<Timestamp>)
    requires
        seconds < 86_400,
    ensures
        time::opt_time(r) == clock_near(seconds as int, now@),
        r matches Some(t) ==> within_half_a_day(t@, now@),
{
    let (secs, _) = now.parts();
    // The calendar begins with a day and ends with one.
    let days: i64 = (secs - time::FIRST_SECOND) / time::SECONDS_PER_DAY;
    let midnight: i64 = days * time::SECONDS_PER_DAY + time::FIRST_SECOND;
    assert(midnight == day_start(now@.second));
    let at: i64 = midnight + (seconds / 60) as i64 * 60;
    let half_day: i128 = 43_200_000_000_000;
    let today = match Timestamp::new(at, 0) {
        Some(t) => t,
        None => return None,
    };
    proof {
        time::law_span_back(now@, today@);
    }
    let ahead: i128 = today.since(now);
    let chosen: i64 = if ahead > half_day {
        at - time::SECONDS_PER_DAY
    } else if now.since(today) > half_day {
        at + time::SECONDS_PER_DAY
    } else {
        at
    };
    Timestamp::new(chosen, 0)
}

fn parse_hhmm(token: &str, now: Timestamp) -> (r: Option<Timestamp>)
    ensures
        time::opt_time(r) == clock_token(token@, now@),
        r matches Some(t) ==> within_half_a_day(t@, now@),
{
    match find_clock_digits(token) {
        Some(digits) => match time::parse_hhmm(digits.as_str()) {
            Some(seconds) => find_clock_near(seconds, now),
            None => None,
        },
        None => None,
    }
}

fn find_amount(tokens: &Vec<String>, unit: &str) -> (r: Option<String>)
    ensures
        text::opt_text(r) == amount(text::texts(tokens@), unit@),
{
    let ghost all = text::texts(tokens@);
    let mut i: usize = 0;
    assert(all.skip(0) =~= all);
    while tokens.len() >= 2 && i < tokens.len() - 1
        invariant
            i <= tokens@.len(),
            all == text::texts(tokens@),
            amount(all, unit@) == amount(all.skip(i as int), unit@),
        decreases tokens.len() - i,
    {
        let ghost rest = all.skip(i as int);
        assert(rest[0] == tokens@[i as int]@ && rest[1] == tokens@[i + 1]@);
        assert(rest.skip(1) =~= all.skip(i + 1));
        if text::same_ignoring_case(tokens[i + 1].as_str(), unit) {
            return Some(tokens[i].clone());
        }
        i = i + 1;
    }
    None
}

fn find_clock(tokens: &Vec<String>, now: Timestamp) -> (r: Option<Timestamp>)
    ensures
        time::opt_time(r) == first_clock(text::texts(tokens@), now@),
        r matches Some(t) ==> within_half_a_day(t@, now@),
{
    let ghost all = text::texts(tokens@);
    let mut i: usize = 0;
    assert(all.skip(0) =~= all);
    while i < tokens.len()
        invariant
            i <= tokens@.len(),
            all == text::texts(tokens@),
            first_clock(all, now@) == first_clock(all.skip(i as int), now@),
        decreases tokens.len() - i,
    {
        assert(all.skip(i as int)[0] == tokens@[i as int]@);
        assert(all.skip(i as int).skip(1) =~= all.skip(i + 1));
        if let Some(t) = parse_hhmm(tokens[i].as_str(), now) {
            return Some(t);
        }
        i = i + 1;
    }
    None
}

/// Reads a line of the feed that names the instant `named`.
pub fn read_report(line: &str, named: Option<Timestamp>, now: Timestamp) -> (r: Option<RawSpot>)
    ensures
        match r {
            Some(spot) => report_with(line@, time::opt_time(named), now@) == Some(spot@),
            None => report_with(line@, time::opt_time(named), now@) is None,
        },
{
    let tokens = text::split_words(line);
    let ghost t = text::words(line@);
    assert(t.len() == tokens@.len());
    if tokens.len() < 5 {
        return None;
    }
    assert(t[0] == tokens@[0]@ && t[1] == tokens@[1]@ && t[2] == tokens@[2]@ && t[3]
        == tokens@[3]@ && t[4] == tokens@[4]@);
    if !text::same_ignoring_case(tokens[0].as_str(), "DX") || !text::same(tokens[1].as_str(), "de") {
        return None;
    }
    let spotter = text::to_upper(
        text::strip_right(tokens[2].as_str(), CharClass::Is(':')).as_str(),
    );
    let frequency_khz = match frequency::read_kilohertz(tokens[3].as_str()) {
        Some(f) => f,
        None => return None,
    };
    let band = match Band::from_frequency_khz(frequency_khz) {
        Some(b) => b,
        None => return None,
    };
    let call = model::normalize_call(tokens[4].as_str());
    if !model::is_plausible_call(call.as_str()) {
        return None;
    }
    let snr_db = match find_amount(&tokens, "dB") {
        Some(n) => match numbers::read_signed(n.as_str(), 32_767) {
            Some(n) => Some(n as i16),
            None => None,
        },
        None => None,
    };
    let speed_wpm = match find_amount(&tokens, "WPM") {
        Some(n) => match numbers::read_unsigned(n.as_str(), 65_535) {
            Ok(n) => Some(n as u16),
            Err(_) => None,
        },
        None => None,
    };
    if speed_wpm.is_none() {
        return None;
    }
    let time = match named {
        Some(t) => t,
        None => now,
    };
    let r = RawSpot { call, frequency_khz, band, time, spotter, snr_db, speed_wpm };
    assert(r@ =~= report_with(line@, time::opt_time(named), now@)->0);
    Some(r)
}

/// Reads a line of the feed. Whatever time a line names, its report is taken to be within half a
/// day of when it was read.
pub fn parse_line(line: &str, now: Timestamp) -> (r: Option<RawSpot>)
    ensures
        match r {
            Some(spot) => report_of(line@, now@) == Some(spot@),
            None => report_of(line@, now@) is None,
        },
        r matches Some(spot) ==> within_half_a_day(spot@.time, now@) && model::band_of(
            spot@.frequency.picohertz as int,
        ) == Some(spot@.band),
{
    let tokens = text::split_words(line);
    assert(text::texts(tokens@) =~= text::words(line@));
    let named = find_clock(&tokens, now);
    read_report(line, named, now)
}

// ---------------------------------------------------------------------------------------------
// Repeated reports
// ---------------------------------------------------------------------------------------------
/// When a station was last reported on a band.
struct Sighting {
    call: String,
    band: Band,
    time: Timestamp,
}

impl View for Sighting {
    type V = (Seq<char>, Band, Instant);

    closed spec fn view(&self) -> (Seq<char>, Band, Instant) {
        (self.call@, self.band, self.time@)
    }
}

/// The stations that were reported lately, with the bands and times.
pub struct Deduplicator {
    seen: Vec<Sighting>,
}

/// The sightings that are no longer than three windows before `time`.
pub open spec fn lately(
    seen: Seq<(Seq<char>, Band, Instant)>,
    time: Instant,
    window: int,
) -> Seq<(Seq<char>, Band, Instant)>
    decreases seen.len(),
{
    if seen.len() == 0 {
        seen
    } else if time::span(seen.last().2, time) <= window * 3 {
        lately(seen.drop_last(), time, window).push(seen.last())
    } else {
        lately(seen.drop_last(), time, window)
    }
}

/// The sightings of other stations or on other bands.
pub open spec fn of_others(
    seen: Seq<(Seq<char>, Band, Instant)>,
    call: Seq<char>,
    band: Band,
) -> Seq<(Seq<char>, Band, Instant)>
    decreases seen.len(),
{
    if seen.len() == 0 {
        seen
    } else if seen.last().0 == call && seen.last().1 == band {
        of_others(seen.drop_last(), call, band)
    } else {
        of_others(seen.drop_last(), call, band).push(seen.last())
    }
}

/// The station was sighted on the band within `window` of `time`, before or after.
pub open spec fn sighted(
    seen: Seq<(Seq<char>, Band, Instant)>,
    call: Seq<char>,
    band: Band,
    time: Instant,
    window: int,
) -> bool {
    exists|i: int|
        #![trigger seen[i]]
        0 <= i < seen.len() && seen[i].0 == call && seen[i].1 == band && -window <= time::span(
            seen[i].2,
            time,
        ) <= window
}

impl View for Deduplicator {
    type V = Seq<(Seq<char>, Band, Instant)>;

    closed spec fn view(&self) -> Seq<(Seq<char>, Band, Instant)> {
        Seq::new(self.seen@.len(), |i: int| self.seen@[i]@)
    }
}

impl Default for Deduplicator {
    fn default() -> (r: Self)
        ensures
            r@ == Seq::<(Seq<char>, Band, Instant)>::empty(),
    {
        let r = Deduplicator { seen: Vec::new() };
        assert(r@ =~= Seq::empty());
        r
    }
}

impl Deduplicator {
    /// Whether a report is the first of its station on its band within a window, in seconds.
    /// Each report takes the place of the one before it; what is three windows old is forgotten.
    pub fn accept(&mut self, spot: &RawSpot, window: u32) -> (r: bool)
        ensures
            ({
                let known = lately(old(self)@, spot@.time, window * 1_000_000_000);
                &&& r == !sighted(
                    known,
                    spot@.call,
                    spot@.band,
                    spot@.time,
                    window * 1_000_000_000,
                )
                &&& final(self)@ == of_others(known, spot@.call, spot@.band).push(
                    (spot@.call, spot@.band, spot@.time),
                )
            }),
    {
        let ghost all = self@;
        let wide: i128 = window as i128 * time::NANOS_PER_SECOND;
        let ghost known = lately(all, spot@.time, wide as int);
        let mut kept: Vec<Sighting> = Vec::new();
        let mut repeated = false;
        let mut i: usize = 0;
        assert(Seq::new(kept@.len(), |j: int| kept@[j]@) =~= of_others(
            lately(all.take(0), spot@.time, wide as int),
            spot@.call,
            spot@.band,
        ));
        while i < self.seen.len()
            invariant
                i <= self.seen@.len(),
                all == self@,
                all.len() == self.seen@.len(),
                0 <= wide <= 4_294_967_295_000_000_000,
                Seq::new(kept@.len(), |j: int| kept@[j]@) == of_others(
                    lately(all.take(i as int), spot@.time, wide as int),
                    spot@.call,
                    spot@.band,
                ),
                repeated == sighted(
                    lately(all.take(i as int), spot@.time, wide as int),
                    spot@.call,
                    spot@.band,
                    spot@.time,
                    wide as int,
                ),
            decreases self.seen.len() - i,
        {
            let entry = &self.seen[i];
            let ghost model = entry@;
            let ghost shorter = lately(all.take(i as int), spot@.time, wide as int);
            let ghost longer = lately(all.take(i + 1), spot@.time, wide as int);
            assert(all.take(i + 1).drop_last() =~= all.take(i as int));
            assert(all.take(i + 1).last() == model);
            let ghost before = Seq::new(kept@.len(), |j: int| kept@[j]@);
            let age = spot.time.since(entry.time);
            if age <= wide * 3 {
                proof {
                    lemma_sighted_push(
                        shorter,
                        model,
                        spot@.call,
                        spot@.band,
                        spot@.time,
                        wide as int,
                    );
                    assert(longer.drop_last() =~= shorter);
                }
                if text::same(entry.call.as_str(), spot.call.as_str()) && entry.band == spot.band {
                    if -wide <= age && age <= wide {
                        repeated = true;
                    }
                } else {
                    kept.push(
                        Sighting { call: entry.call.clone(), band: entry.band, time: entry.time },
                    );
                    assert(Seq::new(kept@.len(), |j: int| kept@[j]@) =~= before.push(model));
                }
            }
            i = i + 1;
        }
        assert(all.take(all.len() as int) =~= all);
        let ghost before = Seq::new(kept@.len(), |j: int| kept@[j]@);
        kept.push(Sighting { call: spot.call.clone(), band: spot.band, time: spot.time });
        self.seen = kept;
        assert(self@ =~= before.push((spot@.call, spot@.band, spot@.time)));
        !repeated
    }
}

proof fn lemma_sighted_push(
    seen: Seq<(Seq<char>, Band, Instant)>,
    x: (Seq<char>, Band, Instant),
    call: Seq<char>,
    band: Band,
    time: Instant,
    window: int,
)
    ensures
        sighted(seen.push(x), call, band, time, window) <==> sighted(
            seen,
            call,
            band,
            time,
            window,
        ) || (x.0 == call && x.1 == band && -window <= time::span(x.2, time) <= window),
{
    let t = seen.push(x);
    if sighted(seen, call, band, time, window) {
        let i = choose|i: int|
            #![trigger seen[i]]
            0 <= i < seen.len() && seen[i].0 == call && seen[i].1 == band && -window <= time::span(
                seen[i].2,
                time,
            ) <= window;
        assert(t[i] == seen[i]);
    }
    if sighted(t, call, band, time, window) {
        let i = choose|i: int|
            #![trigger t[i]]
            0 <= i < t.len() && t[i].0 == call && t[i].1 == band && -window <= time::span(
                t[i].2,
                time,
            ) <= window;
        if i < seen.len() {
            assert(seen[i] == t[i]);
        }
    }
    assert(t[seen.len() as int] == x);
}

/// A report that follows an accepted one of its station on its band within the window is refused.
pub proof fn law_repeated_report_is_refused(
    others: Seq<(Seq<char>, Band, Instant)>,
    accepted: (Seq<char>, Band, Instant),
    time: Instant,
    window: int,
)
    requires
        -window <= time::span(accepted.2, time) <= window,
    ensures
        sighted(
            lately(others.push(accepted), time, window),
            accepted.0,
            accepted.1,
            time,
            window,
        ),
{
    let all = others.push(accepted);
    assert(all.drop_last() =~= others);
    let known = lately(all, time, window);
    assert(known[known.len() - 1] == accepted);
}

// ---------------------------------------------------------------------------------------------
// Connections
// ---------------------------------------------------------------------------------------------
/// How the connection to the feed stands.
#[derive(Debug, Clone, Copy, PartialEq, Eq, Structural)]
pub enum ConnectionState {
    Connecting,
    Connected,
    Degraded,
    Disconnected,
}

impl ConnectionState {
    /// What was heard before may be out of date.
    pub fn candidates_are_stale(self) -> (r: bool)
        ensures
            r == (self == ConnectionState::Degraded || self == ConnectionState::Disconnected),
    {
        match self {
            ConnectionState::Degraded | ConnectionState::Disconnected => true,
            ConnectionState::Connecting | ConnectionState::Connected => false,
        }
    }
}

/// What happens on the connection to the feed.
#[derive(Debug)]
pub enum ClusterEvent {
    Status { state: ConnectionState, message: String },
    Spot(RawSpot),
}

/// The longest pause before another attempt, in seconds.
pub const LONGEST_BACKOFF: u64 = 60;

/// The pause before another attempt and the one to remember for the next: after a connection it
/// begins at a second, and it doubles up to the longest.
pub open spec fn backoff(previous: u64, connected: bool) -> (u64, u64) {
    let delay = if connected {
        1
    } else {
        previous
    };
    (
        delay,
        if 2 * delay <= LONGEST_BACKOFF {
            (2 * delay) as u64
        } else {
            LONGEST_BACKOFF
        },
    )
}

pub fn retry_backoff(previous: u64, connected: bool) -> (r: (u64, u64))
    ensures
        r == backoff(previous, connected),
{
    let delay: u64 = if connected {
        1
    } else {
        previous
    };
    let next: u64 = if delay <= LONGEST_BACKOFF / 2 {
        2 * delay
    } else {
        LONGEST_BACKOFF
    };
    (delay, next)
}

/// The pause to remember after `n` attempts that failed, the first of them after a pause of a
/// second.
pub open spec fn after_failures(n: nat) -> u64
    decreases n,
{
    if n == 0 {
        1
    } else {
        backoff(after_failures((n - 1) as nat), false).1
    }
}

/// The pause never grows beyond the longest, never vanishes, and never shrinks until a connection
/// is made, which sets it back.
pub proof fn law_backoff_is_capped(n: nat)
    ensures
        1 <= after_failures(n) <= LONGEST_BACKOFF,
        after_failures(n) <= after_failures(n + 1),
        n >= 6 ==> after_failures(n) == LONGEST_BACKOFF,
        backoff(after_failures(n), true) == (1u64, 2u64),
    decreases n,
{
    if n > 0 {
        law_backoff_is_capped((n - 1) as nat);
    }
    reveal_with_fuel(after_failures, 8);
}

/// A pause of `delay` seconds varied by up to a fifth either way, in milliseconds; `random`
/// decides by how much.
pub fn jittered_millis(delay: u64, random: u32) -> (r: u64)
    requires
        delay <= LONGEST_BACKOFF,
    ensures
        r == delay * 10 * (80 + random as int % 41),
        delay * 800 <= r <= delay * 1200,
{
    let percent: u64 = 80 + (random % 41) as u64;
    assert(delay * 10 * percent <= 600 * 120) by (nonlinear_arith)
        requires
            delay <= 60,
            80 <= percent <= 120,
    ;
    assert(delay * 800 <= delay * 10 * percent <= delay * 1200) by (nonlinear_arith)
        requires
            delay <= 60,
            80 <= percent <= 120,
    ;
    delay * 10 * percent
}

/// What to report and how long to wait once a connection has ended or failed.
pub struct Pause {
    pub state: ConnectionState,
    pub message: String,
    pub delay: u64,
    pub next_backoff: u64,
}

/// A connection that was made once is degraded when it ends; one that never came about is
/// disconnected.
pub fn after_connection(connected: bool, previous: u64) -> (r: Pause)
    ensures
        r.state == if connected {
            ConnectionState::Degraded
        } else {
            ConnectionState::Disconnected
        },
        (r.delay, r.next_backoff) == backoff(previous, connected),
        r.message@ == "disconnected; retrying in "@ + numbers::decimal(r.delay as nat) + "s"@,
{
    let (delay, next_backoff) = retry_backoff(previous, connected);
    let mut message = text::owned("disconnected; retrying in ");
    numbers::push_decimal(&mut message, delay);
    text::push_text(&mut message, "s");
    let state = if connected {
        ConnectionState::Degraded
    } else {
        ConnectionState::Disconnected
    };
    Pause { state, message, delay, next_backoff }
}

// ---------------------------------------------------------------------------------------------
// What a line means
// ---------------------------------------------------------------------------------------------
/// A line makes a report where, and only where, it has at least five words, begins with `DX de`,
/// and names a frequency on a band, a plausible callsign and a speed.
pub proof fn law_what_a_report_needs(line: Seq<char>, named: Option<Instant>, now: Instant)
    ensures
        ({
            let t = text::words(line);
            report_with(line, named, now) is Some <==> {
                &&& t.len() >= 5
                &&& text::same_letters(t[0], seq!['D', 'X'])
                &&& t[1] == seq!['d', 'e']
                &&& frequency::kilohertz_reading(t[3]) matches Some(f) && model::band_of(f) is Some
                &&& model::plausible(model::normalized(t[4]))
                &&& speed_in(t) is Some
            }
        }),
{
    reveal_strlit("DX");
    reveal_strlit("de");
    assert("DX"@ =~= seq!['D', 'X']);
    assert("de"@ =~= seq!['d', 'e']);
}

/// A report takes its station, its frequency, its band and its spotter from the words of the line
/// that name them, and its time from the line where that names one.
pub proof fn law_report_is_taken_over(line: Seq<char>, named: Option<Instant>, now: Instant)
    requires
        report_with(line, named, now) is Some,
    ensures
        ({
            let t = text::words(line);
            let r = report_with(line, named, now)->0;
            &&& r.call == model::normalized(t[4])
            &&& Some(r.frequency.picohertz as int) == frequency::kilohertz_reading(t[3])
            &&& Some(r.band) == model::band_of(r.frequency.picohertz as int)
            &&& named matches Some(at) ==> r.time == at
            &&& named is None ==> r.time == now
            &&& r.snr_db == strength_in(t)
            &&& r.speed_wpm is Some && r.speed_wpm == speed_in(t)
            &&& exists|k: int|
                0 <= k <= t[2].len() && r.spotter == text::upper(#[trigger] t[2].take(k)) && (k > 0
                    ==> t[2][k - 1] != ':') && forall|i: int|
                    k <= i < t[2].len() ==> #[trigger] t[2][i] == ':'
        }),
{
    let t = text::words(line);
    let r = report_with(line, named, now)->0;
    text::law_stripped(t[2], CharClass::Is(':'));
    let n = text::strip_end(t[2], CharClass::Is(':'));
    let k = n.len() as int;
    assert(t[2].take(k) =~= n);
    assert forall|i: int| k <= i < t[2].len() implies #[trigger] t[2][i] == ':' by {
        assert(CharClass::Is(':').has(t[2][i]));
    }
}

/// An amount is the word before the first unit of its kind, whatever the case of its letters, and
/// there is none where no such unit follows a word.
pub proof fn law_amount_precedes_its_unit(tokens: Seq<Seq<char>>, unit: Seq<char>, k: int)
    ensures
        0 <= k && k + 1 < tokens.len() && text::same_letters(tokens[k + 1], unit) && (forall|i: int|
            0 < i <= k ==> !text::same_letters(#[trigger] tokens[i], unit)) ==> amount(tokens, unit)
            == Some(tokens[k]),
        (forall|i: int|
            0 < i < tokens.len() ==> !text::same_letters(#[trigger] tokens[i], unit)) ==> amount(
            tokens,
            unit,
        ) is None,
    decreases tokens.len(),
{
    if tokens.len() >= 2 {
        let rest = tokens.skip(1);
        law_amount_precedes_its_unit(rest, unit, k - 1);
        assert forall|i: int| 0 <= i < rest.len() implies #[trigger] rest[i] == tokens[i + 1] by {}
        if k > 0 && k + 1 < tokens.len() {
            assert(tokens[1] == rest[0]);
            assert(rest[k] == tokens[k + 1]);
            assert(rest[k - 1] == tokens[k]);
        }
        if forall|i: int|
            0 < i < tokens.len() ==> !text::same_letters(#[trigger] tokens[i], unit) {
            assert(!text::same_letters(tokens[1], unit));
            assert forall|i: int| 0 < i < rest.len() implies !text::same_letters(
                #[trigger] rest[i],
                unit,
            ) by {
                assert(rest[i] == tokens[i + 1]);
            }
        }
    }
}

/// The signal strength is the number before `dB`, with a sign or without one.
pub proof fn law_strength(tokens: Seq<Seq<char>>, k: int)
    requires
        0 <= k,
        k + 1 < tokens.len(),
        text::same_letters(tokens[k + 1], seq!['d', 'B']),
        forall|i: int|
            0 < i <= k ==> !text::same_letters(#[trigger] tokens[i], seq!['d', 'B']),
    ensures
        strength_in(tokens) matches Some(n) ==> numbers::signed_reading(tokens[k], 32_767) == Some(
            n as int,
        ),
        strength_in(tokens) is None ==> numbers::signed_reading(tokens[k], 32_767) is None,
{
    reveal_strlit("dB");
    assert("dB"@ =~= seq!['d', 'B']);
    law_amount_precedes_its_unit(tokens, "dB"@, k);
    numbers::lemma_reading_bound(tokens[k], 32_767);
    numbers::lemma_reading_bound(tokens[k].skip(1), 32_767);
    numbers::lemma_reading_bound(tokens[k].skip(1), 32_768);
}

/// The speed is the number before `WPM`.
pub proof fn law_speed(tokens: Seq<Seq<char>>, k: int)
    requires
        0 <= k,
        k + 1 < tokens.len(),
        text::same_letters(tokens[k + 1], seq!['W', 'P', 'M']),
        forall|i: int|
            0 < i <= k ==> !text::same_letters(#[trigger] tokens[i], seq!['W', 'P', 'M']),
    ensures
        speed_in(tokens) matches Some(n) ==> numbers::unsigned_reading(tokens[k], 65_535) matches Ok(
            m,
        ) && m == n,
        speed_in(tokens) is None ==> numbers::unsigned_reading(tokens[k], 65_535) is Err,
{
    reveal_strlit("WPM");
    assert("WPM"@ =~= seq!['W', 'P', 'M']);
    law_amount_precedes_its_unit(tokens, "WPM"@, k);
    numbers::lemma_reading_bound(tokens[k], 65_535);
    numbers::lemma_reading_bound(tokens[k].skip(1), 65_535);
}

/// A time of day is taken for the nearest instant that shows it, to the minute: it is at most twelve
/// hours from now. There is one wherever the calendar goes on for a day before and after.
pub proof fn law_clock_is_near(seconds: int, now: Instant)
    requires
        0 <= seconds < 86_400,
        0 <= now.nanos < 1_000_000_000,
    ensures
        clock_near(seconds, now) matches Some(t) ==> {
            &&& t.nanos == 0
            &&& t.second % 86_400 == seconds - seconds % 60
            &&& (t.second - now.second) * 1_000_000_000 - now.nanos <= 43_200_000_000_000
            &&& (now.second - t.second) * 1_000_000_000 + now.nanos <= 43_200_000_000_000
        },
        time::FIRST_SECOND + 86_400 <= now.second <= time::LAST_SECOND - 86_400 ==> clock_near(
            seconds,
            now,
        ) is Some,
{
}

/// A time of day is four bytes before a `Z`.
pub proof fn law_clock_tokens(token: Seq<char>, digits: Seq<char>)
    ensures
        clock_digits(token) == Some(digits) <==> token == digits.push('Z')
            && vstd::utf8::encode_utf8(digits).len() == 4,
{
    if clock_digits(token) == Some(digits) {
        assert(token =~= digits.push('Z'));
    }
    if token == digits.push('Z') {
        assert(token.drop_last() =~= digits);
    }
}

/// The first word that names a time of day decides; a line without one names none.
pub proof fn law_first_clock_decides(tokens: Seq<Seq<char>>, now: Instant, k: int)
    ensures
        0 <= k < tokens.len() && clock_token(tokens[k], now) is Some && (forall|i: int|
            0 <= i < k ==> clock_token(#[trigger] tokens[i], now) is None) ==> first_clock(
            tokens,
            now,
        ) == clock_token(tokens[k], now),
        (forall|i: int|
            0 <= i < tokens.len() ==> clock_token(#[trigger] tokens[i], now) is None)
            ==> first_clock(tokens, now) is None,
    decreases tokens.len(),
{
    if tokens.len() > 0 {
        let rest = tokens.skip(1);
        law_first_clock_decides(rest, now, k - 1);
        assert forall|i: int| 0 <= i < rest.len() implies #[trigger] rest[i] == tokens[i + 1] by {}
        if 0 < k < tokens.len() {
            assert(rest[k - 1] == tokens[k]);
            if clock_token(tokens[0], now) is Some {
                assert(!(forall|i: int|
                    0 <= i < k ==> clock_token(#[trigger] tokens[i], now) is None));
            }
        }
    }
}

proof fn lemma_lately(
    seen: Seq<(Seq<char>, Band, Instant)>,
    time: Instant,
    window: int,
    i: int,
)
    ensures
        0 <= i < seen.len() && time::span(seen[i].2, time) <= 3 * window ==> lately(
            seen,
            time,
            window,
        ).contains(seen[i]),
        0 <= i < lately(seen, time, window).len() ==> seen.contains(lately(seen, time, window)[i])
            && time::span(lately(seen, time, window)[i].2, time) <= 3 * window,
    decreases seen.len(),
{
    if seen.len() > 0 {
        let front = seen.drop_last();
        let f = lately(front, time, window);
        let r = lately(seen, time, window);
        lemma_lately(front, time, window, i);
        if 0 <= i < seen.len() && time::span(seen[i].2, time) <= 3 * window {
            if i < front.len() {
                assert(front[i] == seen[i]);
                let k = choose|k: int| 0 <= k < f.len() && f[k] == seen[i];
                assert(r[k] == f[k]);
            } else {
                assert(r[r.len() - 1] == seen[i]);
            }
        }
        if 0 <= i < r.len() {
            if i < f.len() {
                assert(r[i] == f[i]);
                let k = choose|k: int| 0 <= k < front.len() && front[k] == f[i];
                assert(seen[k] == r[i]);
            } else {
                assert(seen[seen.len() - 1] == r[i]);
            }
        }
    }
}

proof fn lemma_of_others(seen: Seq<(Seq<char>, Band, Instant)>, call: Seq<char>, band: Band, i: int)
    ensures
        0 <= i < seen.len() && (seen[i].0 != call || seen[i].1 != band) ==> of_others(
            seen,
            call,
            band,
        ).contains(seen[i]),
        0 <= i < of_others(seen, call, band).len() ==> seen.contains(of_others(seen, call, band)[i])
            && (of_others(seen, call, band)[i].0 != call || of_others(seen, call, band)[i].1
            != band),
    decreases seen.len(),
{
    if seen.len() > 0 {
        let front = seen.drop_last();
        let f = of_others(front, call, band);
        let r = of_others(seen, call, band);
        lemma_of_others(front, call, band, i);
        if 0 <= i < seen.len() && (seen[i].0 != call || seen[i].1 != band) {
            if i < front.len() {
                assert(front[i] == seen[i]);
                let k = choose|k: int| 0 <= k < f.len() && f[k] == seen[i];
                assert(r[k] == f[k]);
            } else {
                assert(r[r.len() - 1] == seen[i]);
            }
        }
        if 0 <= i < r.len() {
            if i < f.len() {
                assert(r[i] == f[i]);
                let k = choose|k: int| 0 <= k < front.len() && front[k] == f[i];
                assert(seen[k] == r[i]);
            } else {
                assert(seen[seen.len() - 1] == r[i]);
            }
        }
    }
}

/// A report is refused where, and only where, its station was seen on its band at most a window
/// before it or after it.
pub proof fn law_when_a_report_is_refused(
    seen: Seq<(Seq<char>, Band, Instant)>,
    call: Seq<char>,
    band: Band,
    time: Instant,
    window: int,
)
    requires
        window >= 0,
    ensures
        sighted(lately(seen, time, window), call, band, time, window) <==> exists|i: int|
            #![trigger seen[i]]
            0 <= i < seen.len() && seen[i].0 == call && seen[i].1 == band && -window <= time::span(
                seen[i].2,
                time,
            ) <= window,
{
    let l = lately(seen, time, window);
    if sighted(l, call, band, time, window) {
        let i = choose|i: int|
            #![trigger l[i]]
            0 <= i < l.len() && l[i].0 == call && l[i].1 == band && -window <= time::span(
                l[i].2,
                time,
            ) <= window;
        lemma_lately(seen, time, window, i);
        let k = choose|k: int| 0 <= k < seen.len() && seen[k] == l[i];
        assert(-window <= time::span(seen[k].2, time) <= window);
    }
    if exists|i: int|
        #![trigger seen[i]]
        0 <= i < seen.len() && seen[i].0 == call && seen[i].1 == band && -window <= time::span(
            seen[i].2,
            time,
        ) <= window {
        let i = choose|i: int|
            #![trigger seen[i]]
            0 <= i < seen.len() && seen[i].0 == call && seen[i].1 == band && -window <= time::span(
                seen[i].2,
                time,
            ) <= window;
        lemma_lately(seen, time, window, i);
        let k = choose|k: int| 0 <= k < l.len() && l[k] == seen[i];
        assert(l[k].0 == call);
    }
}

/// After a report, what is remembered of its station on its band is that report alone; of all others
/// it is whatever is no more than three windows old.
pub proof fn law_what_is_remembered(
    seen: Seq<(Seq<char>, Band, Instant)>,
    call: Seq<char>,
    band: Band,
    time: Instant,
    window: int,
    x: (Seq<char>, Band, Instant),
)
    ensures
        of_others(lately(seen, time, window), call, band).push((call, band, time)).contains(x) <==> {
            ||| x == (call, band, time)
            ||| {
                &&& seen.contains(x)
                &&& x.0 != call || x.1 != band
                &&& time::span(x.2, time) <= 3 * window
            }
        },
{
    let l = lately(seen, time, window);
    let o = of_others(l, call, band);
    let r = o.push((call, band, time));
    if r.contains(x) {
        let i = choose|i: int| 0 <= i < r.len() && r[i] == x;
        if i < o.len() {
            lemma_of_others(l, call, band, i);
            assert(o[i] == x);
            let k = choose|k: int| 0 <= k < l.len() && l[k] == x;
            lemma_lately(seen, time, window, k);
        }
    }
    if seen.contains(x) && (x.0 != call || x.1 != band) && time::span(x.2, time) <= 3 * window {
        let i = choose|i: int| 0 <= i < seen.len() && seen[i] == x;
        lemma_lately(seen, time, window, i);
        let k = choose|k: int| 0 <= k < l.len() && l[k] == x;
        lemma_of_others(l, call, band, k);
        let p = choose|p: int| 0 <= p < o.len() && o[p] == x;
        assert(r[p] == x);
    }
    assert(r[o.len() as int] == (call, band, time));
}

/// After a connection the pause is a second, else the one remembered; the next is twice as long, but
/// no longer than a minute.
pub proof fn law_pause_doubles(previous: u64, connected: bool)
    ensures
        ({
            let (delay, next) = backoff(previous, connected);
            &&& connected ==> delay == 1
            &&& !connected ==> delay == previous
            &&& delay <= 30 ==> next == 2 * delay
            &&& delay >= 30 ==> next == 60
        }),
{
}

} // verus!
