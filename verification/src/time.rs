//! Instants, spans and the wall clock's time zone, as plain numbers.

use chrono::Offset;
use vstd::prelude::*;

use crate::text;

verus! {

pub const NANOS_PER_SEC: u32 = 1_000_000_000;

/// The first and last second a timestamp can name, as seconds since the epoch.
pub const MIN_SECS: i64 = -8_334_601_228_800;

pub const MAX_SECS: i64 = 8_210_266_876_799;

/// A span of time, to the nanosecond.
#[derive(Debug, Clone, Copy, PartialEq, Eq, Structural)]
pub struct Duration {
    pub nanos: u128,
}

impl Duration {
    pub fn from_secs(secs: u64) -> (d: Duration)
        ensures
            d.nanos == secs * 1_000_000_000,
    {
        Duration { nanos: secs as u128 * 1_000_000_000 }
    }

    pub fn from_millis(millis: u64) -> (d: Duration)
        ensures
            d.nanos == millis * 1_000_000,
    {
        Duration { nanos: millis as u128 * 1_000_000 }
    }

    /// Whole milliseconds, the rest cut off.
    pub fn as_millis(self) -> (ms: u128)
        ensures
            ms == self.nanos / 1_000_000,
    {
        self.nanos / 1_000_000
    }

    /// Whole seconds, the rest cut off.
    pub fn as_secs(self) -> (secs: u128)
        ensures
            secs == self.nanos / 1_000_000_000,
    {
        self.nanos / 1_000_000_000
    }

    /// The difference, or nothing when `other` is longer.
    pub fn saturating_sub(self, other: Duration) -> (d: Duration)
        ensures
            d.nanos == (if self.nanos >= other.nanos { self.nanos - other.nanos } else { 0 }),
    {
        if self.nanos >= other.nanos {
            Duration { nanos: self.nanos - other.nanos }
        } else {
            Duration { nanos: 0 }
        }
    }
}

/// Seconds since the epoch and nanoseconds that name an instant. Nanoseconds of
/// a whole second and more mark a leap second, which only follows second 59.
pub open spec fn names_instant(secs: int, nanos: int) -> bool {
    &&& MIN_SECS <= secs <= MAX_SECS
    &&& 0 <= nanos < 2_000_000_000
    &&& nanos >= 1_000_000_000 ==> secs % 60 == 59
}

/// An instant in UTC.
#[derive(Debug, Clone, Copy, PartialEq, Eq)]
pub struct Timestamp {
    secs: i64,
    nanos: u32,
}

impl Timestamp {
    #[verifier::type_invariant]
    spec fn inv(self) -> bool {
        names_instant(self.secs as int, self.nanos as int)
    }

    /// Seconds since the epoch.
    pub closed spec fn secs(self) -> int {
        self.secs as int
    }

    /// Nanoseconds within the second, a leap second's counted on.
    pub closed spec fn nanos(self) -> int {
        self.nanos as int
    }

    /// The instant `secs` seconds and `nanos` nanoseconds after the epoch.
    pub fn new(secs: i64, nanos: u32) -> (r: Option<Timestamp>)
        ensures
            r is Some <==> names_instant(secs as int, nanos as int),
            r matches Some(t) ==> t.secs() == secs && t.nanos() == nanos,
    {
        if MIN_SECS <= secs && secs <= MAX_SECS && nanos < 2_000_000_000 && (nanos < 1_000_000_000
            || modulo(secs, 60) == 59) {
            Some(Timestamp { secs, nanos })
        } else {
            None
        }
    }

    /// Seconds since the epoch.
    pub fn unix_secs(&self) -> (secs: i64)
        ensures
            secs == self.secs(),
            names_instant(self.secs(), self.nanos()),
    {
        proof {
            use_type_invariant(self);
        }
        self.secs
    }

    /// Nanoseconds within the second, a leap second's counted on.
    pub fn subsec_nanos(&self) -> (nanos: u32)
        ensures
            nanos == self.nanos(),
            names_instant(self.secs(), self.nanos()),
    {
        proof {
            use_type_invariant(self);
        }
        self.nanos
    }

    /// The instant `n` seconds later.
    pub closed spec fn later(self, n: u32) -> Timestamp {
        if n == 0 {
            self
        } else {
            Timestamp {
                secs: (self.secs + n) as i64,
                nanos: (self.nanos % NANOS_PER_SEC) as u32,
            }
        }
    }

    /// The instant `n` seconds later; a leap second is left by going on.
    pub fn plus_secs(self, n: u32) -> (r: Timestamp)
        requires
            self.secs() + n <= MAX_SECS,
        ensures
            r == self.later(n),
            r.secs() == self.secs() + n,
            r.nanos() == (if n == 0 { self.nanos() } else { self.nanos() % 1_000_000_000 }),
    {
        proof {
            use_type_invariant(&self);
        }
        if n == 0 {
            self
        } else {
            Timestamp { secs: self.secs + n as i64, nanos: self.nanos % NANOS_PER_SEC }
        }
    }

    /// Nanoseconds from `now` to this instant, negative once it has passed.
    pub fn nanos_after(self, now: Timestamp) -> (r: i128)
        ensures
            r == nanos_between(self, now),
            -0x1_0000_0000_0000_0000_0000 < r < 0x1_0000_0000_0000_0000_0000,
    {
        proof {
            use_type_invariant(&self);
            use_type_invariant(&now);
        }
        let day = modulo(self.secs, 86_400);
        let now_day = modulo(now.secs, 86_400);
        let leap: i128 = if day > now_day && now.nanos >= NANOS_PER_SEC {
            1
        } else if day < now_day && self.nanos >= NANOS_PER_SEC {
            -1
        } else {
            0
        };
        let secs: i128 = self.secs as i128 - now.secs as i128 + leap;
        secs * 1_000_000_000 + (self.nanos as i128 - now.nanos as i128)
    }
}

/// `a` modulo `m`, never negative.
fn modulo(a: i64, m: i64) -> (r: i64)
    requires
        m > 0,
    ensures
        r == a % m,
{
    match a.checked_rem_euclid(m) {
        Some(r) => r,
        None => 0,
    }
}

/// Nanoseconds from `now` to `target`. Where one of the two lies in a leap
/// second and the other later in the day, that second counts in full.
pub open spec fn nanos_between(target: Timestamp, now: Timestamp) -> int {
    let day = target.secs() % 86_400;
    let now_day = now.secs() % 86_400;
    let leap: int = if day > now_day && now.nanos() >= 1_000_000_000 {
        1
    } else if day < now_day && target.nanos() >= 1_000_000_000 {
        -1
    } else {
        0
    };
    (target.secs() - now.secs() + leap) * 1_000_000_000 + (target.nanos() - now.nanos())
}

/// Going on by `n` seconds adds them and leaves the fraction of the second, but a leap
/// second is left.
pub proof fn lemma_later(now: Timestamp, n: u32)
    requires
        names_instant(now.secs(), now.nanos()),
        now.secs() + n <= MAX_SECS,
    ensures
        now.later(n).secs() == now.secs() + n,
        now.nanos() < 1_000_000_000 ==> now.later(n).nanos() == now.nanos(),
        n > 0 && now.nanos() >= 1_000_000_000 ==> now.later(n).nanos() == now.nanos()
            - 1_000_000_000,
        n == 0 ==> now.later(n) == now,
{
}

/// The instant that chrono reads from an ISO 8601 text: seconds since the epoch
/// and nanoseconds.
pub uninterp spec fn iso_instant(s: Seq<char>) -> Option<(i64, u32)>;

/// `<chrono::DateTime<Utc> as FromStr>::from_str`, its `timestamp` and its
/// `timestamp_subsec_nanos`. Which texts are accepted and what they mean is
/// named, not spelled out; what is read lies within chrono's range, and a leap
/// second in it follows second 59, for offsets are whole minutes.
#[verifier::external_body]
fn chrono_parse(s: &str) -> (r: Option<(i64, u32)>)
    ensures
        r == iso_instant(s@),
        r matches Some(p) ==> names_instant(p.0 as int, p.1 as int),
{
    match s.parse::<chrono::DateTime<chrono::Utc>>() {
        Ok(t) => Some((t.timestamp(), t.timestamp_subsec_nanos())),
        Err(_) => None,
    }
}

/// Whether `s` names an instant.
pub open spec fn iso_names(s: Seq<char>) -> bool {
    iso_instant(s) is Some
}

/// The instant that `s` names.
pub closed spec fn iso_timestamp(s: Seq<char>) -> Timestamp {
    let p = iso_instant(s)->0;
    Timestamp { secs: p.0, nanos: p.1 }
}

/// The timestamp that a text stands for holds the numbers read from it.
pub proof fn law_timestamp_holds_what_was_read(s: Seq<char>)
    requires
        iso_names(s),
    ensures
        iso_instant(s) == Some((iso_timestamp(s).secs() as i64, iso_timestamp(s).nanos() as u32)),
{
}

pub proof fn lemma_iso_timestamp(s: Seq<char>)
    requires
        iso_names(s),
    ensures
        iso_timestamp(s).secs() == (iso_instant(s)->0).0,
        iso_timestamp(s).nanos() == (iso_instant(s)->0).1,
{
}

/// Read an ISO 8601 instant.
pub fn parse_iso(s: &str) -> (r: Option<Timestamp>)
    ensures
        r is Some <==> iso_names(s@),
        r matches Some(t) ==> t == iso_timestamp(s@),
{
    match chrono_parse(s) {
        Some((secs, nanos)) => Timestamp::new(secs, nanos),
        None => None,
    }
}

/// Whether the time zone database knows a zone of this name.
pub uninterp spec fn zone_known(name: Seq<char>) -> bool;

/// Seconds that local time in the named zone is ahead of UTC, `secs` seconds
/// after the epoch.
pub uninterp spec fn zone_offset(name: Seq<char>, secs: int) -> int;

/// `<chrono_tz::Tz as FromStr>::from_str`: whether it finds the zone.
#[verifier::external_body]
fn chrono_zone_known(name: &str) -> (r: bool)
    ensures
        r == zone_known(name@),
{
    name.parse::<chrono_tz::Tz>().is_ok()
}

/// The offset that `chrono::DateTime::with_timezone` finds for a zone of
/// `chrono_tz`. The database is compiled in, so name and instant decide it; it
/// is less than a day either way, as `chrono::FixedOffset` demands.
#[verifier::external_body]
fn chrono_zone_offset(name: &str, secs: i64) -> (r: i32)
    requires
        zone_known(name@),
        MIN_SECS <= secs <= MAX_SECS,
    ensures
        r == zone_offset(name@, secs as int),
        -86_400 < r < 86_400,
{
    let zone: chrono_tz::Tz = name.parse().unwrap();
    let instant = chrono::DateTime::from_timestamp(secs, 0).unwrap();
    instant.with_timezone(&zone).offset().fix().local_minus_utc()
}

/// A time zone that the database knows.
#[derive(Debug, PartialEq, Eq)]
pub struct TimeZone {
    name: String,
}

impl TimeZone {
    #[verifier::type_invariant]
    spec fn inv(self) -> bool {
        zone_known(self.name@)
    }

    /// The zone's name, e.g. `Europe/London`.
    pub closed spec fn named(self) -> Seq<char> {
        self.name@
    }

    /// The zone of this name, if there is one.
    pub fn find(name: &str) -> (r: Option<TimeZone>)
        ensures
            r is Some <==> zone_known(name@),
            r matches Some(z) ==> z.named() == name@,
    {
        if chrono_zone_known(name) {
            Some(TimeZone { name: name.to_owned() })
        } else {
            None
        }
    }

    /// The zone's name.
    pub fn name(&self) -> (r: &str)
        ensures
            r@ == self.named(),
    {
        self.name.as_str()
    }

    /// Seconds that local time is ahead of UTC at `now`.
    pub fn offset_at(&self, now: Timestamp) -> (r: i32)
        ensures
            r == zone_offset(self.named(), now.secs()),
            -86_400 < r < 86_400,
    {
        proof {
            use_type_invariant(self);
            use_type_invariant(&now);
        }
        chrono_zone_offset(self.name.as_str(), now.secs)
    }
}

impl Clone for TimeZone {
    fn clone(&self) -> (r: TimeZone)
        ensures
            r == *self,
    {
        proof {
            use_type_invariant(self);
        }
        TimeZone { name: self.name.clone() }
    }
}

/// What lies between two instants is bounded.
pub proof fn lemma_span_between(target: Timestamp, now: Timestamp)
    ensures
        -90_000_000_000_000_000_000_000_000_000 < nanos_between(target, now)
            < 90_000_000_000_000_000_000_000_000_000,
{
}

/// `HH:MM:SS` on a clock that is `offset` seconds ahead of UTC. A leap second
/// shows as second 60.
pub open spec fn clock_face(now: Timestamp, offset: int) -> Seq<char> {
    let local = (now.secs() + offset) % 86_400;
    let leap: int = if now.nanos() >= 1_000_000_000 {
        1
    } else {
        0
    };
    text::two_digits(local / 3600) + seq![':'] + text::two_digits(local % 3600 / 60) + seq![':'] + text::two_digits(
        local % 60 + leap,
    )
}

/// `HH:MM:SS` on a clock that is `offset` seconds ahead of UTC.
pub fn show_clock(now: Timestamp, offset: i32) -> (r: String)
    requires
        -86_400 < offset < 86_400,
    ensures
        r@ == clock_face(now, offset as int),
{
    proof {
        use_type_invariant(&now);
    }
    let local: u64 = modulo(now.secs + offset as i64, 86_400) as u64;
    let leap: u64 = if now.nanos >= NANOS_PER_SEC {
        1
    } else {
        0
    };
    let mut s = String::new();
    text::push_two_digits(&mut s, local / 3600);
    s.push(':');
    text::push_two_digits(&mut s, local % 3600 / 60);
    s.push(':');
    text::push_two_digits(&mut s, local % 60 + leap);
    assert(s@ =~= clock_face(now, offset as int));
    s
}

} // verus!
