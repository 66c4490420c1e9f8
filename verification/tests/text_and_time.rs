use locate_git_projects_on_my_computer::version::parse_i64;
use locate_git_projects_on_my_computer::version::version_line;
use locate_git_projects_on_my_computer::version::version_text;
use locate_git_projects_on_my_computer::string_set::StringSet;
use locate_git_projects_on_my_computer::text::char_is_white_space;
use locate_git_projects_on_my_computer::text::compare_text;
use locate_git_projects_on_my_computer::text::str_contains;
use locate_git_projects_on_my_computer::text::str_eq_ignore_ascii_case;
use locate_git_projects_on_my_computer::text::str_to_ascii_lowercase;
use locate_git_projects_on_my_computer::text::trim;
use locate_git_projects_on_my_computer::text::TextOrder;
use locate_git_projects_on_my_computer::time::count_ascii_digits;
use locate_git_projects_on_my_computer::time::TimeSpan;
use locate_git_projects_on_my_computer::time::Timestamp;

#[test]
fn white_space_matches_std_for_every_char() {
    for code in 0u32..=0x10FFFF {
        if let Some(c) = char::from_u32(code) {
            assert_eq!(char_is_white_space(c), c.is_whitespace(), "{code:#x}");
        }
    }
}

#[test]
fn trim_matches_std() {
    for s in ["", "   ", " a ", "\u{2028}x\u{85}", "a b", "\t\n a\u{3000}", "é "] {
        assert_eq!(trim(s), s.trim());
    }
}

#[test]
fn text_order_matches_str_order() {
    let samples = ["", "a", "A", "ab", "b", "é", "e", "\u{ffff}", "😀", "zz", "a\u{0}"];
    for x in samples {
        for y in samples {
            let expected = if x < y {
                TextOrder::Less
            } else if x == y {
                TextOrder::Equal
            } else {
                TextOrder::Greater
            };
            assert_eq!(compare_text(x, y), expected, "{x:?} {y:?}");
        }
    }
}

#[test]
fn ascii_case_helpers_match_std() {
    for (a, b) in [(".git", ".GIT"), ("Cargo.toml", "cargo.toml"), ("é", "É"), ("ab", "abc")] {
        assert_eq!(str_eq_ignore_ascii_case(a, b), a.eq_ignore_ascii_case(b));
        assert_eq!(str_to_ascii_lowercase(a), a.to_ascii_lowercase());
    }
}

#[test]
fn contains_matches_std() {
    for (h, n) in [("abc", "bc"), ("abc", ""), ("", "a"), ("aab", "ab"), ("héllo", "él"), ("ab", "abc")] {
        assert_eq!(str_contains(h, n), h.contains(n));
    }
}

#[test]
fn string_set_is_sorted_and_deduplicated() {
    let mut set = StringSet::new();
    for v in ["b", "a", "c", "a", "B", "é"] {
        set.insert(v.to_owned());
    }
    assert!(set.contains("a"));
    assert!(!set.contains("d"));
    assert_eq!(set.len(), 5);
    let mut other = StringSet::new();
    other.insert("d".to_owned());
    other.insert("a".to_owned());
    set.extend(other);
    assert_eq!(set.into_vec(), vec!["B", "a", "b", "c", "d", "é"]);
}

#[test]
fn time_spans_follow_duration() {
    assert_eq!(TimeSpan::from_millis(1_999).as_secs(), 1);
    assert_eq!(TimeSpan::from_millis(1_999).subsec_nanos(), 999_000_000);
    assert_eq!(TimeSpan::new(1, 1_500_000_000), TimeSpan::new(2, 500_000_000));
    assert!(TimeSpan::from_millis(999).is_shorter_than(&TimeSpan::from_secs(1)));
    assert!(!TimeSpan::from_secs(1).is_shorter_than(&TimeSpan::from_secs(1)));
}

#[test]
fn timestamps_follow_system_time_on_unix() {
    let epoch = Timestamp::unix_epoch();
    let before = epoch.checked_sub(TimeSpan::from_millis(1_500)).unwrap();
    assert_eq!(before.unix_secs(), -2);
    assert_eq!(before.subsec_nanos(), 500_000_000);
    assert_eq!(before.checked_add(TimeSpan::from_millis(1_500)), Some(epoch));
    assert_eq!(epoch.duration_since(&before), Some(TimeSpan::from_millis(1_500)));
    assert_eq!(before.duration_since(&epoch), None);
    let latest = Timestamp::from_unix_secs(i64::MAX);
    assert_eq!(latest.checked_add(TimeSpan::from_secs(1)), None);
    let earliest = Timestamp::from_unix_secs(i64::MIN);
    assert_eq!(earliest.checked_sub(TimeSpan::new(0, 1)), None);
    assert_eq!(before.later_of(epoch), epoch);
}

#[test]
fn clock_reads_close_to_std() {
    let expected = std::time::SystemTime::now()
        .duration_since(std::time::UNIX_EPOCH)
        .unwrap()
        .as_secs() as i64;
    let now = Timestamp::now().unix_secs();
    assert!((now - expected).abs() <= 5);
}

#[test]
fn counts_digits() {
    assert_eq!(count_ascii_digits("1h 30m"), 3);
    assert_eq!(count_ascii_digits(""), 0);
    assert_eq!(count_ascii_digits("٣"), 0);
}

#[test]
fn version_line_shows_the_build_time_or_that_it_is_unknown() {
    assert_eq!(
        version_line("1.2.3", "abc123", Some("2024-01-02 03:04:05 UTC".to_owned())),
        "1.2.3 (rev abc123, built 2024-01-02 03:04:05 UTC)"
    );
    assert_eq!(
        version_line("1.2.3", "abc123", None),
        "1.2.3 (rev abc123, built unknown build time)"
    );
}

#[test]
fn version_text_reads_the_build_time_like_i64_parse() {
    let unknown = "0.1.0 (rev r, built unknown build time)";
    for text in ["", "-", "+", "12a", " 1", "1 ", "9223372036854775808", "-9223372036854775809"] {
        assert_eq!(version_text("0.1.0", "r", text), unknown, "{text:?}");
        assert!(text.parse::<i64>().is_err());
    }
    for text in ["0", "+0", "-1", "1700000000000", "007"] {
        let line = version_text("0.1.0", "r", text);
        assert!(line.starts_with("0.1.0 (rev r, built "), "{line}");
        assert_ne!(line, unknown, "{text:?}");
        assert!(line.ends_with(')'));
        let shown = &line["0.1.0 (rev r, built ".len()..];
        let first = shown.chars().next().unwrap();
        assert!(first.is_ascii_digit() || first == '+' || first == '-', "{line}");
    }
}

#[test]
fn version_text_follows_chronos_range() {
    let unknown = "0.1.0 (rev r, built unknown build time)";
    assert_ne!(version_text("0.1.0", "r", "-8334601228800000"), unknown);
    assert_eq!(version_text("0.1.0", "r", "-8334601228800001"), unknown);
    assert_ne!(version_text("0.1.0", "r", "8210266876799999"), unknown);
    assert_eq!(version_text("0.1.0", "r", "8210266876800000"), unknown);
    assert_eq!(version_text("0.1.0", "r", "9223372036854775807"), unknown);
    assert!(chrono::DateTime::<chrono::Utc>::from_timestamp_millis(-8334601228800000).is_some());
    assert!(chrono::DateTime::<chrono::Utc>::from_timestamp_millis(-8334601228800001).is_none());
    assert!(chrono::DateTime::<chrono::Utc>::from_timestamp_millis(8210266876799999).is_some());
    assert!(chrono::DateTime::<chrono::Utc>::from_timestamp_millis(8210266876800000).is_none());
}

#[test]
fn parse_i64_matches_std() {
    for text in [
        "", "-", "+", "0", "-0", "+0", "42", "-42", "+42", "007", "1_000", " 1", "1 ", "1e3",
        "9223372036854775807", "9223372036854775808", "-9223372036854775808",
        "-9223372036854775809", "99999999999999999999x", "x1", "--1", "+-1", "١",
    ] {
        assert_eq!(parse_i64(text), text.parse::<i64>().ok(), "{text:?}");
    }
}
