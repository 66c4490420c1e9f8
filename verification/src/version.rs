//! The version line shown by `--version`: the package version, the source
//! revision and the build time in the local time zone.

use vstd::prelude::*;
use crate::text::append_text;

verus! {

// ---------------------------------------------------------------------------
// Reading the build time
// ---------------------------------------------------------------------------

/// The value of a non-empty string of ASCII digits, read in base ten.
pub open spec fn decimal_value(digits: Seq<char>) -> int
    decreases digits.len(),
{
    if digits.len() == 0 {
        0
    } else {
        decimal_value(digits.drop_last()) * 10 + (digits.last() as int - 48)
    }
}

/// `s` is one or more ASCII digits (`'0'` is 48 and `'9'` is 57).
pub open spec fn is_ascii_digits(s: Seq<char>) -> bool {
    &&& s.len() > 0
    &&& forall|i: int| 0 <= i < s.len() ==> 48 <= #[trigger] s[i] as int <= 57
}

/// What `str::parse::<i64>` accepts: an optional `+` or `-` sign followed by
/// one or more ASCII digits, whose value fits an `i64`.
pub open spec fn parsed_i64(text: Seq<char>) -> Option<i64> {
    let negative = text.len() > 0 && text[0] == '-';
    let signed = text.len() > 0 && (text[0] == '-' || text[0] == '+');
    let digits = if signed {
        text.skip(1)
    } else {
        text
    };
    if !is_ascii_digits(digits) {
        None
    } else {
        let value = if negative {
            -decimal_value(digits)
        } else {
            decimal_value(digits)
        };
        if i64::MIN <= value <= i64::MAX {
            Some(value as i64)
        } else {
            None
        }
    }
}

/// A digit string's value is at least that of each of its prefixes, and
/// never negative.
proof fn lemma_decimal_value_grows(s: Seq<char>, j: int)
    requires
        forall|i: int| 0 <= i < s.len() ==> 48 <= #[trigger] s[i] as int <= 57,
        0 <= j <= s.len(),
    ensures
        0 <= decimal_value(s.take(j)) <= decimal_value(s),
    decreases s.len(),
{
    if s.len() > 0 {
        let d = s.drop_last();
        assert forall|i: int| 0 <= i < d.len() implies 48 <= #[trigger] d[i] as int <= 57 by {
            assert(d[i] == s[i]);
        }
        assert(48 <= s[s.len() - 1] as int <= 57);
        assert(s.last() == s[s.len() - 1]);
        if j == s.len() {
            lemma_decimal_value_grows(d, d.len() as int);
            assert(d.take(d.len() as int) =~= d);
            assert(s.take(j) =~= s);
        } else {
            assert(d.take(j) =~= s.take(j));
            lemma_decimal_value_grows(d, j);
        }
    } else {
        assert(s.take(j) =~= s);
    }
}

/// The value of an ASCII digit.
fn ascii_digit_value(c: char) -> (d: i64)
    requires
        48 <= c as int <= 57,
    ensures
        d == c as int - 48,
{
    if c == '0' {
        0
    } else if c == '1' {
        1
    } else if c == '2' {
        2
    } else if c == '3' {
        3
    } else if c == '4' {
        4
    } else if c == '5' {
        5
    } else if c == '6' {
        6
    } else if c == '7' {
        7
    } else if c == '8' {
        8
    } else {
        9
    }
}

/// Reads an optionally signed decimal number, as `str::parse::<i64>` does:
/// `None` where the text is empty, holds anything but a leading sign and
/// ASCII digits, or the value does not fit an `i64`.
pub fn parse_i64(text: &str) -> (out: Option<i64>)
    ensures
        out == parsed_i64(text@),
{
    let cs = crate::text::chars_of(text);
    let ghost t = text@;
    let signed = cs.len() > 0 && (cs[0] == '-' || cs[0] == '+');
    let negative = cs.len() > 0 && cs[0] == '-';
    let start: usize = if signed {
        1
    } else {
        0
    };
    let ghost digits = if signed {
        t.skip(1)
    } else {
        t
    };
    assert(digits =~= t.skip(start as int));
    if start == cs.len() {
        assert(digits.len() == 0);
        return None;
    }
    let mut value: i64 = 0;
    let mut i: usize = start;
    while i < cs.len()
        invariant
            cs@ == t,
            t == text@,
            start <= i <= cs.len(),
            digits == t.skip(start as int),
            signed == (t.len() > 0 && (t[0] == '-' || t[0] == '+')),
            start == (if signed {
                1usize
            } else {
                0usize
            }),
            digits == (if signed {
                t.skip(1)
            } else {
                t
            }),
            negative == (t.len() > 0 && t[0] == '-'),
            negative ==> signed,
            forall|k: int| 0 <= k < i - start ==> 48 <= #[trigger] digits[k] as int <= 57,
            value as int == if negative {
                -decimal_value(digits.take(i - start))
            } else {
                decimal_value(digits.take(i - start))
            },
        decreases cs.len() - i,
    {
        let c = cs[i];
        assert(c == digits[i - start]);
        if c < '0' || c > '9' {
            assert(!is_ascii_digits(digits)) by {
                assert(!(48 <= digits[i - start] as int <= 57));
            }
            return None;
        }
        let d = ascii_digit_value(c);
        let ghost before = digits.take(i - start);
        let ghost after = digits.take(i - start + 1);
        assert(after.drop_last() =~= before);
        assert(after.last() == c);
        assert(decimal_value(after) == decimal_value(before) * 10 + d);
        let next = if negative {
            match value.checked_mul(10) {
                Some(v) => v.checked_sub(d),
                None => None,
            }
        } else {
            match value.checked_mul(10) {
                Some(v) => v.checked_add(d),
                None => None,
            }
        };
        match next {
            Some(v) => {
                value = v;
            },
            None => {
                proof {
                    if is_ascii_digits(digits) {
                        lemma_decimal_value_grows(digits, i - start + 1);
                        lemma_decimal_value_grows(before, i - start);
                        assert(before.take(i - start) =~= before);
                    }
                }
                return None;
            },
        }
        i = i + 1;
    }
    assert(digits.take(digits.len() as int) =~= digits);
    assert(is_ascii_digits(digits));
    Some(value)
}

/// Milliseconds from the Unix epoch to the first instant chrono can hold,
/// `-262143-01-01T00:00:00Z` (`DateTime::<Utc>::MIN_UTC`).
pub open spec fn chrono_min_millis() -> int {
    -8_334_601_228_800_000
}

/// Milliseconds from the Unix epoch to the last whole millisecond chrono can
/// hold, `262142-12-31T23:59:59.999Z` (within `DateTime::<Utc>::MAX_UTC`).
pub open spec fn chrono_max_millis() -> int {
    8_210_266_876_799_999
}

/// chrono can hold the instant `ms` milliseconds after the Unix epoch.
pub open spec fn chrono_millis_in_range(ms: int) -> bool {
    chrono_min_millis() <= ms <= chrono_max_millis()
}

/// How the build time is shown: date, time of day and time-zone name.
pub const BUILD_TIME_FORMAT: &'static str = "%Y-%m-%d %H:%M:%S %Z";

/// `c` can begin chrono's `%Y`: a digit, or the sign it writes before years
/// outside 0..=9999.
pub open spec fn begins_a_year(c: char) -> bool {
    c == '+' || c == '-' || ('0' <= c && c <= '9')
}

/// The digit character for `d` in `0..10`.
pub open spec fn digit_char(d: int) -> char {
    (48 + d) as char
}

/// The decimal digits of `n`, without leading zeros.
pub open spec fn decimal_text(n: nat) -> Seq<char>
    decreases n,
{
    if n < 10 {
        seq![digit_char(n as int)]
    } else {
        decimal_text(n / 10).push(digit_char((n % 10) as int))
    }
}

/// The decimal digits of `n`, with zeros in front up to `width` characters.
pub open spec fn padded_text(n: nat, width: nat) -> Seq<char> {
    let digits = decimal_text(n);
    if digits.len() >= width {
        digits
    } else {
        Seq::new((width - digits.len()) as nat, |i: int| '0') + digits
    }
}

/// A year as `%Y` shows it: four digits (with leading zeros) for years
/// 0 to 9999, and a sign before at least four digits otherwise.
pub open spec fn year_text(y: int) -> Seq<char> {
    if 0 <= y <= 9999 {
        padded_text(y as nat, 4)
    } else if y < 0 {
        seq!['-'] + padded_text((-y) as nat, 4)
    } else {
        seq!['+'] + padded_text(y as nat, 4)
    }
}

/// The date, in the proleptic Gregorian calendar, of the day `days` after
/// 1970-01-01: `(year, month, day)`, with months and days counted from 1.
pub open spec fn civil_date(days: int) -> (int, int, int) {
    let z = days + 719_468;
    let era = z / 146_097;
    let doe = z - era * 146_097;
    let yoe = (doe - doe / 1460 + doe / 36_524 - doe / 146_096) / 365;
    let doy = doe - (365 * yoe + yoe / 4 - yoe / 100);
    let mp = (5 * doy + 2) / 153;
    let day = doy - (153 * mp + 2) / 5 + 1;
    let month = if mp < 10 {
        mp + 3
    } else {
        mp - 9
    };
    let year = yoe + era * 400 + if month <= 2 {
        1int
    } else {
        0int
    };
    (year, month, day)
}

/// `%Y-%m-%d %H:%M:%S` for the time `secs` seconds after 1970-01-01
/// 00:00:00 (a negative count lies before it).
pub open spec fn calendar_text(secs: int) -> Seq<char> {
    let days = secs / 86_400;
    let in_day = secs % 86_400;
    let (year, month, day) = civil_date(days);
    year_text(year) + seq!['-'] + padded_text(month as nat, 2) + seq!['-'] + padded_text(day as nat, 2)
        + seq![' '] + padded_text((in_day / 3600) as nat, 2) + seq![':'] + padded_text(
        ((in_day % 3600) / 60) as nat,
        2,
    ) + seq![':'] + padded_text((in_day % 60) as nat, 2)
}

/// The instant `ms` milliseconds after the epoch lies at least a day inside
/// chrono's range, so that its local time does too.
pub open spec fn well_inside_chrono_range(ms: int) -> bool {
    chrono_millis_in_range(ms - 86_400_000) && chrono_millis_in_range(ms + 86_400_000)
}

/// The local time, shown as [`BUILD_TIME_FORMAT`] shows it, of the instant
/// `ms` milliseconds after the epoch, where the local zone is `offset`
/// seconds east of UTC and is called `zone`.
pub open spec fn local_time_shown(ms: int, offset: int, zone: Seq<char>) -> Seq<char> {
    calendar_text(ms / 1000 + offset) + seq![' '] + zone
}

/// An offset east of UTC that chrono's `FixedOffset` can hold: less than a
/// day either way.
pub open spec fn valid_offset(offset: int) -> bool {
    -86_400 < offset < 86_400
}

/// chrono's `DateTime::<Utc>::from_timestamp_millis`, shown in the local
/// time zone with the `format` pattern (which is [`BUILD_TIME_FORMAT`]). The
/// contract states when there is a text (exactly when the instant lies in
/// chrono's range) and that the text begins with the year, as `%Y` writes it
/// (a digit or a sign). Where the instant lies a day inside that range, the
/// text is the instant's whole seconds (`div_euclid` of the milliseconds)
/// moved by the local zone's offset, which chrono keeps under a day, shown
/// in the proleptic Gregorian calendar and followed by the zone's name.
/// Which offset and name apply depends on the machine's time zone and is
/// not stated. chrono's lookup of the local zone `expect`s usable zone data
/// and otherwise falls back to UTC; broken zone data is not modelled.
#[verifier::external_body]
fn local_time_text(unix_ms: i64, format: &str) -> (out: Option<String>)
    requires
        format@ == BUILD_TIME_FORMAT@,
    ensures
        out is Some <==> chrono_millis_in_range(unix_ms as int),
        out matches Some(t) ==> t@.len() > 0 && begins_a_year(t@[0]),
        out matches Some(t) ==> (well_inside_chrono_range(unix_ms as int) ==> exists|offset: int, zone: Seq<char>|
            valid_offset(offset) && t@ == local_time_shown(unix_ms as int, offset, zone)),
{
    match chrono::DateTime::<chrono::Utc>::from_timestamp_millis(unix_ms) {
        Some(at) => Some(at.with_timezone(&chrono::Local).format(format).to_string()),
        None => None,
    }
}

// ---------------------------------------------------------------------------
// The version line
// ---------------------------------------------------------------------------

/// `<semver> (rev <revision>, built <built_at>)`.
pub open spec fn version_line_text(semver: Seq<char>, revision: Seq<char>, built_at: Seq<char>) -> Seq<
    char,
> {
    semver + " (rev "@ + revision + ", built "@ + built_at + ")"@
}

/// The build time a millisecond count can be shown as: there is one when the
/// count parses and chrono can hold the instant.
pub open spec fn build_time_known(build_unix_ms: Seq<char>) -> bool {
    parsed_i64(build_unix_ms) matches Some(ms) && chrono_millis_in_range(ms as int)
}

/// The version line, with `built_at` or, without one, `unknown build time`.
pub fn version_line(semver: &str, revision: &str, built_at: Option<String>) -> (out: String)
    ensures
        out@ == version_line_text(
            semver@,
            revision@,
            match built_at {
                Some(t) => t@,
                None => "unknown build time"@,
            },
        ),
{
    let mut out = String::new();
    append_text(&mut out, semver);
    append_text(&mut out, " (rev ");
    append_text(&mut out, revision);
    append_text(&mut out, ", built ");
    match &built_at {
        Some(t) => append_text(&mut out, t.as_str()),
        None => append_text(&mut out, "unknown build time"),
    }
    append_text(&mut out, ")");
    out
}

/// The version line of a build: `build_unix_ms` is the build time in
/// milliseconds since the Unix epoch, as text. Where it parses and chrono
/// can hold the instant, the line shows that time in the local time zone;
/// otherwise it shows `unknown build time`. The time shown is the build
/// instant itself: its date and time of day in the local zone (less than a
/// day from UTC), then the zone's name.
pub fn version_text(semver: &str, revision: &str, build_unix_ms: &str) -> (out: String)
    ensures
        build_time_known(build_unix_ms@) && well_inside_chrono_range(parsed_i64(build_unix_ms@)->0 as int)
            ==> exists|offset: int, zone: Seq<char>|
            valid_offset(offset) && out@ == version_line_text(
                semver@,
                revision@,
                local_time_shown(parsed_i64(build_unix_ms@)->0 as int, offset, zone),
            ),
        build_time_known(build_unix_ms@) ==> exists|t: Seq<char>|
            t.len() > 0 && begins_a_year(t[0]) && t != "unknown build time"@ && out@ == version_line_text(
                semver@,
                revision@,
                t,
            ),
        !build_time_known(build_unix_ms@) ==> out@ == version_line_text(
            semver@,
            revision@,
            "unknown build time"@,
        ),
{
    let built_at = match parse_i64(build_unix_ms) {
        Some(ms) => local_time_text(ms, BUILD_TIME_FORMAT),
        None => None,
    };
    let ghost shown = built_at;
    let out = version_line(semver, revision, built_at);
    proof {
        if let Some(t) = shown {
            reveal_strlit("unknown build time");
            assert(t@ != "unknown build time"@) by {
                assert("unknown build time"@[0] == 'u');
            }
            assert(out@ == version_line_text(semver@, revision@, t@));
            let ms = parsed_i64(build_unix_ms@)->0 as int;
            if well_inside_chrono_range(ms) {
                let (offset, zone) = choose|offset: int, zone: Seq<char>|
                    valid_offset(offset) && t@ == local_time_shown(ms, offset, zone);
                assert(valid_offset(offset) && out@ == version_line_text(
                    semver@,
                    revision@,
                    local_time_shown(ms, offset, zone),
                ));
            }
        }
    }
    out
}

} // verus!
