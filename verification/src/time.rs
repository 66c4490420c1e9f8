//! Spans of time and points in time as plain integers.
//!
//! [`TimeSpan`] holds what `std::time::Duration` holds (whole seconds and
//! leftover nanoseconds); [`Timestamp`] holds a point in time as a signed
//! offset from the Unix epoch, the way `SystemTime` stores it on Unix.
//! Both are specified through their length in nanoseconds.

use vstd::prelude::*;

verus! {

/// Nanoseconds in one second.
pub const NANOS_PER_SEC: u32 = 1_000_000_000;

/// The largest number of nanoseconds a [`TimeSpan`] can hold.
pub open spec fn max_span_nanos() -> int {
    u64::MAX as int * 1_000_000_000 + 999_999_999
}

/// The smallest offset, in nanoseconds, that a [`Timestamp`] can hold.
pub open spec fn min_timestamp_nanos() -> int {
    i64::MIN as int * 1_000_000_000
}

/// The largest offset, in nanoseconds, that a [`Timestamp`] can hold.
pub open spec fn max_timestamp_nanos() -> int {
    i64::MAX as int * 1_000_000_000 + 999_999_999
}

/// A non-negative length of time.
#[derive(Clone, Copy, Debug, PartialEq, Eq, Structural)]
pub struct TimeSpan {
    secs: u64,
    nanos: u32,
}

impl TimeSpan {
    #[verifier::type_invariant]
    pub closed spec fn well_formed(self) -> bool {
        self.nanos < NANOS_PER_SEC
    }

    /// The span in nanoseconds.
    pub closed spec fn nanos_total(self) -> int {
        self.secs * 1_000_000_000 + self.nanos
    }

    /// Every span holds between zero and [`max_span_nanos`] nanoseconds, and
    /// two spans of the same length are the same span.
    pub proof fn lemma_span_facts(a: TimeSpan, b: TimeSpan)
        requires
            a.well_formed(),
            b.well_formed(),
        ensures
            0 <= a.nanos_total() <= max_span_nanos(),
            a.nanos_total() == b.nanos_total() ==> a == b,
    {
        assert(a.nanos_total() == b.nanos_total() ==> a.secs == b.secs) by (nonlinear_arith)
            requires
                a.nanos < 1_000_000_000,
                b.nanos < 1_000_000_000,
                a.nanos_total() == a.secs * 1_000_000_000 + a.nanos,
                b.nanos_total() == b.secs * 1_000_000_000 + b.nanos,
        ;
    }

    /// A span of zero length.
    pub fn zero() -> (out: TimeSpan)
        ensures
            out@ == 0,
    {
        TimeSpan { secs: 0, nanos: 0 }
    }

    /// `Duration::from_secs`.
    pub fn from_secs(secs: u64) -> (out: TimeSpan)
        ensures
            out@ == secs * 1_000_000_000,
    {
        TimeSpan { secs, nanos: 0 }
    }

    /// `Duration::from_millis`.
    pub fn from_millis(millis: u64) -> (out: TimeSpan)
        ensures
            out@ == millis * 1_000_000,
    {
        let secs = millis / 1000;
        let rest = (millis % 1000) as u32;
        let out = TimeSpan { secs, nanos: rest * 1_000_000 };
        assert(out@ == millis * 1_000_000) by (nonlinear_arith)
            requires
                secs == millis / 1000,
                rest == millis % 1000,
                out@ == secs * 1_000_000_000 + rest * 1_000_000,
        ;
        out
    }

    /// `Duration::new`: whole seconds plus nanoseconds, which may carry into
    /// the seconds.
    pub fn new(secs: u64, nanos: u32) -> (out: TimeSpan)
        requires
            secs + nanos / 1_000_000_000 <= u64::MAX,
        ensures
            out@ == secs * 1_000_000_000 + nanos,
    {
        let carry = (nanos / NANOS_PER_SEC) as u64;
        let rest = nanos % NANOS_PER_SEC;
        let out = TimeSpan { secs: secs + carry, nanos: rest };
        assert(out@ == secs * 1_000_000_000 + nanos) by (nonlinear_arith)
            requires
                carry == nanos / 1_000_000_000,
                rest == nanos % 1_000_000_000,
                out@ == (secs + carry) * 1_000_000_000 + rest,
        ;
        out
    }

    /// `Duration::as_secs`: the whole seconds of the span.
    pub fn as_secs(&self) -> (out: u64)
        ensures
            out == self@ / 1_000_000_000,
    {
        proof {
            use_type_invariant(self);
        }
        let out = self.secs;
        assert(out == self@ / 1_000_000_000) by (nonlinear_arith)
            requires
                self.nanos < 1_000_000_000,
                self@ == self.secs * 1_000_000_000 + self.nanos,
                out == self.secs,
        ;
        out
    }

    /// `Duration::subsec_nanos`: the nanoseconds beyond the whole seconds.
    pub fn subsec_nanos(&self) -> (out: u32)
        ensures
            out == self@ % 1_000_000_000,
            out < NANOS_PER_SEC,
    {
        proof {
            use_type_invariant(self);
        }
        let out = self.nanos;
        assert(out == self@ % 1_000_000_000) by (nonlinear_arith)
            requires
                self.nanos < 1_000_000_000,
                self@ == self.secs * 1_000_000_000 + self.nanos,
                out == self.nanos,
        ;
        out
    }

    /// Whether this span is shorter than `other`.
    pub fn is_shorter_than(&self, other: &TimeSpan) -> (out: bool)
        ensures
            out == (self@ < other@),
    {
        proof {
            use_type_invariant(self);
            use_type_invariant(other);
        }
        self.secs < other.secs || (self.secs == other.secs && self.nanos < other.nanos)
    }
}

impl View for TimeSpan {
    type V = int;

    closed spec fn view(&self) -> int {
        self.nanos_total()
    }
}

/// A point in time, as a signed offset from the Unix epoch.
#[derive(Clone, Copy, Debug, PartialEq, Eq, Structural)]
pub struct Timestamp {
    secs: i64,
    nanos: u32,
}

impl Timestamp {
    #[verifier::type_invariant]
    pub closed spec fn well_formed(self) -> bool {
        self.nanos < NANOS_PER_SEC
    }

    /// The offset from the Unix epoch in nanoseconds.
    pub closed spec fn offset_nanos(self) -> int {
        self.secs * 1_000_000_000 + self.nanos
    }

    /// `SystemTime::UNIX_EPOCH`.
    pub fn unix_epoch() -> (out: Timestamp)
        ensures
            out@ == 0,
    {
        Timestamp { secs: 0, nanos: 0 }
    }

    /// The timestamp `secs` whole seconds after (or, when negative, before)
    /// the epoch.
    pub fn from_unix_secs(secs: i64) -> (out: Timestamp)
        ensures
            out@ == secs * 1_000_000_000,
    {
        Timestamp { secs, nanos: 0 }
    }

    /// Builds a timestamp from a signed offset in whole seconds and a
    /// non-negative count of nanoseconds below one second.
    fn from_parts(secs: i64, nanos: u32) -> (out: Timestamp)
        requires
            nanos < NANOS_PER_SEC,
        ensures
            out@ == secs * 1_000_000_000 + nanos,
    {
        Timestamp { secs, nanos }
    }

    /// `SystemTime::checked_add`: `None` when the result does not fit.
    pub fn checked_add(&self, span: TimeSpan) -> (out: Option<Timestamp>)
        ensures
            out is Some <==> self@ + span@ <= max_timestamp_nanos(),
            out matches Some(t) ==> t@ == self@ + span@,
    {
        proof {
            use_type_invariant(self);
            use_type_invariant(&span);
        }
        let mut secs: i128 = self.secs as i128 + span.secs as i128;
        let mut nanos: u32 = self.nanos + span.nanos;
        if nanos >= NANOS_PER_SEC {
            nanos = nanos - NANOS_PER_SEC;
            secs = secs + 1;
        }
        assert(secs * 1_000_000_000 + nanos == self@ + span@);
        if secs > i64::MAX as i128 {
            assert(self@ + span@ > max_timestamp_nanos()) by (nonlinear_arith)
                requires
                    secs * 1_000_000_000 + nanos == self@ + span@,
                    secs > i64::MAX,
                    nanos >= 0,
            ;
            None
        } else {
            assert(self@ + span@ <= max_timestamp_nanos()) by (nonlinear_arith)
                requires
                    secs * 1_000_000_000 + nanos == self@ + span@,
                    secs <= i64::MAX,
                    nanos < 1_000_000_000,
            ;
            Some(Timestamp::from_parts(secs as i64, nanos))
        }
    }

    /// `SystemTime::checked_sub`: `None` when the result does not fit.
    pub fn checked_sub(&self, span: TimeSpan) -> (out: Option<Timestamp>)
        ensures
            out is Some <==> self@ - span@ >= min_timestamp_nanos(),
            out matches Some(t) ==> t@ == self@ - span@,
    {
        proof {
            use_type_invariant(self);
            use_type_invariant(&span);
        }
        let mut secs: i128 = self.secs as i128 - span.secs as i128;
        let mut nanos: u32;
        if self.nanos >= span.nanos {
            nanos = self.nanos - span.nanos;
        } else {
            nanos = self.nanos + NANOS_PER_SEC - span.nanos;
            secs = secs - 1;
        }
        assert(secs * 1_000_000_000 + nanos == self@ - span@);
        if secs < i64::MIN as i128 {
            assert(self@ - span@ < min_timestamp_nanos()) by (nonlinear_arith)
                requires
                    secs * 1_000_000_000 + nanos == self@ - span@,
                    secs < i64::MIN,
                    nanos < 1_000_000_000,
            ;
            None
        } else {
            assert(self@ - span@ >= min_timestamp_nanos()) by (nonlinear_arith)
                requires
                    secs * 1_000_000_000 + nanos == self@ - span@,
                    secs >= i64::MIN,
                    nanos >= 0,
            ;
            Some(Timestamp::from_parts(secs as i64, nanos))
        }
    }

    /// `SystemTime::duration_since`: the span from `earlier` to `self`, or
    /// `None` when `earlier` is later than `self`.
    pub fn duration_since(&self, earlier: &Timestamp) -> (out: Option<TimeSpan>)
        ensures
            out is Some <==> self@ >= earlier@,
            out matches Some(d) ==> d@ == self@ - earlier@,
    {
        proof {
            use_type_invariant(self);
            use_type_invariant(earlier);
        }
        let mut secs: i128 = self.secs as i128 - earlier.secs as i128;
        let mut nanos: u32;
        if self.nanos >= earlier.nanos {
            nanos = self.nanos - earlier.nanos;
        } else {
            nanos = self.nanos + NANOS_PER_SEC - earlier.nanos;
            secs = secs - 1;
        }
        assert(secs * 1_000_000_000 + nanos == self@ - earlier@);
        if secs < 0 {
            assert(self@ < earlier@) by (nonlinear_arith)
                requires
                    secs * 1_000_000_000 + nanos == self@ - earlier@,
                    secs < 0,
                    nanos < 1_000_000_000,
            ;
            None
        } else {
            assert(self@ >= earlier@) by (nonlinear_arith)
                requires
                    secs * 1_000_000_000 + nanos == self@ - earlier@,
                    secs >= 0,
                    nanos >= 0,
            ;
            let span = TimeSpan { secs: secs as u64, nanos };
            assert(span@ == self@ - earlier@);
            Some(span)
        }
    }

    /// Whether `self` is not earlier than `other`.
    pub fn is_at_or_after(&self, other: &Timestamp) -> (out: bool)
        ensures
            out == (self@ >= other@),
    {
        proof {
            use_type_invariant(self);
            use_type_invariant(other);
        }
        let out = self.secs > other.secs || (self.secs == other.secs && self.nanos >= other.nanos);
        assert(out == (self@ >= other@)) by (nonlinear_arith)
            requires
                self.nanos < 1_000_000_000,
                other.nanos < 1_000_000_000,
                self@ == self.secs * 1_000_000_000 + self.nanos,
                other@ == other.secs * 1_000_000_000 + other.nanos,
                out == (self.secs > other.secs || (self.secs == other.secs && self.nanos
                    >= other.nanos)),
        ;
        out
    }

    /// The later of two timestamps (`Ord::max`).
    pub fn later_of(self, other: Timestamp) -> (out: Timestamp)
        ensures
            out == self || out == other,
            out@ >= self@,
            out@ >= other@,
    {
        if other.is_at_or_after(&self) {
            other
        } else {
            self
        }
    }

    /// The whole seconds of the offset, rounded towards minus infinity.
    pub fn unix_secs(&self) -> (out: i64)
        ensures
            out == self@ / 1_000_000_000,
    {
        proof {
            use_type_invariant(self);
        }
        let out = self.secs;
        assert(out == self@ / 1_000_000_000) by (nonlinear_arith)
            requires
                self.nanos < 1_000_000_000,
                self@ == self.secs * 1_000_000_000 + self.nanos,
                out == self.secs,
        ;
        out
    }

    /// The nanoseconds of the offset beyond its whole seconds.
    pub fn subsec_nanos(&self) -> (out: u32)
        ensures
            out == self@ % 1_000_000_000,
            out < NANOS_PER_SEC,
    {
        proof {
            use_type_invariant(self);
        }
        let out = self.nanos;
        assert(out == self@ % 1_000_000_000) by (nonlinear_arith)
            requires
                self.nanos < 1_000_000_000,
                self@ == self.secs * 1_000_000_000 + self.nanos,
                out == self.nanos,
        ;
        out
    }
}

impl View for Timestamp {
    type V = int;

    closed spec fn view(&self) -> int {
        self.offset_nanos()
    }
}

// ---------------------------------------------------------------------------
// The system clock
// ---------------------------------------------------------------------------

/// Reads `SystemTime::now()` as an offset from the Unix epoch: whether the
/// clock stands before the epoch, and the distance in whole seconds and
/// leftover nanoseconds. The contract claims that the nanoseconds are below
/// one second (as `Duration::subsec_nanos` documents) and that the distance
/// fits the signed 64-bit count of seconds that `SystemTime` stores on Unix;
/// it claims nothing about which time is read.
#[verifier::external_body]
fn read_system_clock() -> (out: (bool, u64, u32))
    ensures
        out.2 < NANOS_PER_SEC,
        !out.0 ==> out.1 <= i64::MAX,
        out.0 ==> out.1 * 1_000_000_000 + out.2 <= 0x8000_0000_0000_0000 * 1_000_000_000,
{
    match std::time::SystemTime::now().duration_since(std::time::UNIX_EPOCH) {
        Ok(after) => (false, after.as_secs(), after.subsec_nanos()),
        Err(before) => (true, before.duration().as_secs(), before.duration().subsec_nanos()),
    }
}

impl Timestamp {
    /// `SystemTime::now`: the current time of the system clock.
    pub fn now() -> Timestamp {
        let (before_epoch, secs, nanos) = read_system_clock();
        if !before_epoch {
            Timestamp::from_parts(secs as i64, nanos)
        } else if nanos == 0 {
            Timestamp::from_parts(-(secs as i128) as i64, 0)
        } else {
            assert(secs < 0x8000_0000_0000_0000) by (nonlinear_arith)
                requires
                    secs * 1_000_000_000 + nanos <= 0x8000_0000_0000_0000 * 1_000_000_000,
                    nanos > 0,
            ;
            Timestamp::from_parts((-(secs as i128) - 1) as i64, NANOS_PER_SEC - nanos)
        }
    }
}

// ---------------------------------------------------------------------------
// humantime
// ---------------------------------------------------------------------------

/// How many ASCII digits `s` holds.
pub open spec fn ascii_digit_count(s: Seq<char>) -> nat
    decreases s.len(),
{
    if s.len() == 0 {
        0
    } else {
        ascii_digit_count(s.drop_last()) + if '0' <= s.last() <= '9' {
            1nat
        } else {
            0nat
        }
    }
}

/// Counts the ASCII digits of `s`.
pub fn count_ascii_digits(s: &str) -> (out: usize)
    ensures
        out == ascii_digit_count(s@),
{
    let v = crate::text::chars_of(s);
    let mut count: usize = 0;
    let mut i: usize = 0;
    while i < v.len()
        invariant
            v@ == s@,
            i <= v.len(),
            count == ascii_digit_count(s@.take(i as int)),
            count <= i,
        decreases v.len() - i,
    {
        assert(s@.take(i + 1).drop_last() =~= s@.take(i as int));
        if '0' <= v[i] && v[i] <= '9' {
            count = count + 1;
        }
        i = i + 1;
    }
    assert(s@.take(v.len() as int) =~= s@);
    count
}

/// The most ASCII digits a duration text may hold for
/// `humantime::parse_duration` to be known not to panic.
pub const MAX_DURATION_DIGITS: usize = 11;

/// What `humantime::parse_duration` makes of a text: the parsed duration as
/// whole seconds and leftover nanoseconds, or `None` where it reports an
/// error.
pub uninterp spec fn humantime_parsed_duration(text: Seq<char>) -> Option<(u64, u32)>;

/// `humantime::parse_duration`. Its grammar (numbers with units such as
/// `1day 2h`) is not written out: the result is named
/// [`humantime_parsed_duration`]; the contract adds that the nanoseconds
/// are below one second, as `Duration` keeps them. The parser panics in
/// `Duration::new` when a sum reaches exactly `u64::MAX` seconds with a
/// carried second; with at most [`MAX_DURATION_DIGITS`] digits the sum stays
/// far below that, which is what `requires` asks.
#[verifier::external_body]
pub(crate) fn parse_humantime_duration(text: &str) -> (out: Option<(u64, u32)>)
    requires
        ascii_digit_count(text@) <= MAX_DURATION_DIGITS,
    ensures
        out == humantime_parsed_duration(text@),
        out matches Some(parts) ==> parts.1 < NANOS_PER_SEC,
{
    match humantime::parse_duration(text) {
        Ok(duration) => Some((duration.as_secs(), duration.subsec_nanos())),
        Err(_) => None,
    }
}

/// What `humantime::format_duration(Duration::new(secs, nanos))` displays.
pub uninterp spec fn humantime_duration_text(secs: u64, nanos: u32) -> Seq<char>;

/// `humantime::format_duration`, displayed: a text such as `1day 2h 3m`. The
/// text is named [`humantime_duration_text`].
#[verifier::external_body]
pub(crate) fn format_humantime_duration(secs: u64, nanos: u32) -> (out: String)
    requires
        nanos < NANOS_PER_SEC,
    ensures
        out@ == humantime_duration_text(secs, nanos),
{
    humantime::format_duration(std::time::Duration::new(secs, nanos)).to_string()
}

/// The first second that `humantime`'s RFC 3339 formatting refuses (the
/// year 10000).
pub const RFC3339_LIMIT_SECS: u64 = 253_402_300_800;

/// What `humantime::format_rfc3339_seconds` displays for the time `secs`
/// seconds and `nanos` nanoseconds after the epoch.
pub uninterp spec fn humantime_rfc3339_seconds_text(secs: u64, nanos: u32) -> Seq<char>;

/// `humantime::format_rfc3339_seconds`, displayed: a UTC timestamp such as
/// `1970-01-03T00:00:00Z`. The text is named
/// [`humantime_rfc3339_seconds_text`]. Displaying panics for times before
/// the epoch or from the year 10000 on, which `requires` leaves out.
#[verifier::external_body]
pub(crate) fn format_humantime_rfc3339_seconds(secs: u64, nanos: u32) -> (out: String)
    requires
        secs < RFC3339_LIMIT_SECS,
        nanos < NANOS_PER_SEC,
    ensures
        out@ == humantime_rfc3339_seconds_text(secs, nanos),
{
    humantime::format_rfc3339_seconds(std::time::UNIX_EPOCH + std::time::Duration::new(secs, nanos))
        .to_string()
}

} // verus!
