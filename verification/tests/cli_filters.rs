use locate_git_projects_on_my_computer::cli::activity_cutoff_from_now;
use locate_git_projects_on_my_computer::cli::activity_value_is_supported;
use locate_git_projects_on_my_computer::cli::contains_any;
use locate_git_projects_on_my_computer::cli::contains_any_case_insensitive_substring;
use locate_git_projects_on_my_computer::cli::contains_any_name;
use locate_git_projects_on_my_computer::cli::matches_any_filter;
use locate_git_projects_on_my_computer::cli::normalize_name_for_matching;
use locate_git_projects_on_my_computer::cli::select_projects;
use locate_git_projects_on_my_computer::discovery::DiscoveredProject;
use locate_git_projects_on_my_computer::discovery::DiscoveredProjectRecord;
use locate_git_projects_on_my_computer::time::TimeSpan;
use locate_git_projects_on_my_computer::time::Timestamp;

fn at_secs(secs: u64) -> Timestamp {
    Timestamp::unix_epoch()
        .checked_add(TimeSpan::from_secs(secs))
        .expect("time should fit")
}

fn sample_record() -> DiscoveredProjectRecord {
    DiscoveredProjectRecord {
        project: DiscoveredProject {
            path_on_disk: String::new(),
            names: vec!["repo_name".to_owned()],
            outlinks: vec!["https://example.com".to_owned()],
            authors: vec!["Ada <ada@example.com>".to_owned()],
            last_activity_on: None,
            last_activity_ago: None,
        },
        newest_branch_activity_at: None,
    }
}

#[test]
fn unfiltered_cli_keeps_all_projects() {
    let project = sample_record();

    assert!(matches_any_filter(&project, &[], &[], &[]));
}

#[test]
fn filters_match_when_any_requested_value_is_present() {
    let project = sample_record();

    assert!(matches_any_filter(
        &project,
        &["repo-name".to_owned()],
        &[],
        &[]
    ));
    assert!(matches_any_filter(
        &project,
        &[],
        &["Ada <ada@example.com>".to_owned()],
        &[]
    ));
    assert!(matches_any_filter(&project, &[], &["ada".to_owned()], &[]));
    assert!(matches_any_filter(
        &project,
        &[],
        &["EXAMPLE.COM".to_owned()],
        &[]
    ));
    assert!(matches_any_filter(
        &project,
        &[],
        &[],
        &["https://example.com".to_owned()]
    ));
    assert!(matches_any_filter(
        &project,
        &["missing".to_owned()],
        &["Ada <ada@example.com>".to_owned()],
        &[]
    ));
}

#[test]
fn filters_reject_projects_without_any_requested_values() {
    let project = sample_record();

    assert!(!matches_any_filter(
        &project,
        &["missing".to_owned()],
        &["Unknown <unknown@example.com>".to_owned()],
        &["https://other.example.com".to_owned()]
    ));
}

#[test]
fn contains_any_uses_exact_membership() {
    assert!(contains_any(&["repo".to_owned()], &["repo".to_owned()]));
    assert!(!contains_any(&["repo".to_owned()], &["rep".to_owned()]));
}

#[test]
fn author_filters_use_case_insensitive_substring_matching() {
    assert!(contains_any_case_insensitive_substring(
        &["Ada Lovelace <ada@example.com>".to_owned()],
        &["lovelace".to_owned()]
    ));
    assert!(contains_any_case_insensitive_substring(
        &["Ada Lovelace <ada@example.com>".to_owned()],
        &["ADA@EXAMPLE".to_owned()]
    ));
    assert!(!contains_any_case_insensitive_substring(
        &["Ada Lovelace <ada@example.com>".to_owned()],
        &["grace".to_owned()]
    ));
    assert!(!contains_any_case_insensitive_substring(
        &["Ada Lovelace <ada@example.com>".to_owned()],
        &["   ".to_owned()]
    ));
}

#[test]
fn contains_any_name_normalizes_dashes_and_underscores() {
    assert!(contains_any_name(
        &["rc-zip".to_owned()],
        &["rc_zip".to_owned()]
    ));
    assert!(contains_any_name(
        &["rc_zip".to_owned()],
        &["rc-zip".to_owned()]
    ));
    assert!(!contains_any_name(
        &["rczip".to_owned()],
        &["rc_zip".to_owned()]
    ));
}

#[test]
fn normalize_name_for_matching_only_rewrites_dash_and_underscore() {
    assert_eq!(normalize_name_for_matching("rc-zip"), "rc_zip");
    assert_eq!(normalize_name_for_matching("rc_zip"), "rc_zip");
    assert_eq!(normalize_name_for_matching("Rc.Zip"), "Rc.Zip");
}

#[test]
fn activity_cutoff_parses_humantime_relative_to_now() {
    let now = at_secs(86_400 * 5);
    let cutoff = activity_cutoff_from_now(Some("1day"), now)
        .expect("humantime value should parse");

    assert_eq!(cutoff, now.checked_sub(TimeSpan::from_secs(86_400)).unwrap());
}

#[test]
fn activity_cutoff_ignores_empty_or_invalid_values() {
    let now = at_secs(10);

    assert_eq!(activity_cutoff_from_now(Some("   "), now), None);
    assert_eq!(activity_cutoff_from_now(Some("not-a-duration"), now), None);
    assert_eq!(activity_cutoff_from_now(None, now), None);
}

#[test]
fn activity_cutoff_trims_and_reaches_before_the_epoch() {
    let now = at_secs(10);
    let cutoff = activity_cutoff_from_now(Some("  1m 30s  "), now).expect("duration should parse");
    assert_eq!(cutoff, Timestamp::from_unix_secs(-80));
    let fractional = activity_cutoff_from_now(Some("1.5s"), now).expect("duration should parse");
    assert_eq!(
        fractional,
        now.checked_sub(TimeSpan::from_millis(1_500)).unwrap()
    );
}

#[test]
fn activity_value_support_counts_digits() {
    assert!(activity_value_is_supported(None));
    assert!(activity_value_is_supported(Some("12345678901s")));
    assert!(!activity_value_is_supported(Some("123456789012s")));
}

#[test]
fn name_matching_law_on_concrete_values() {
    // `-` and `_` are interchangeable at every position, nothing else is.
    assert!(contains_any_name(&["a-b_c".to_owned()], &["a_b-c".to_owned()]));
    assert!(!contains_any_name(&["a-b".to_owned()], &["a.b".to_owned()]));
    assert!(!contains_any_name(&["ab".to_owned()], &["a-b".to_owned()]));
    assert!(!contains_any_name(&[], &["ab".to_owned()]));
}

#[test]
fn author_matching_uses_unicode_lowercase() {
    assert!(contains_any_case_insensitive_substring(
        &["ÉMILE <e@example.com>".to_owned()],
        &["émile".to_owned()]
    ));
    assert!(contains_any_case_insensitive_substring(
        &["Grace".to_owned(), "Ada".to_owned()],
        &["  ".to_owned(), " ada ".to_owned()]
    ));
}

#[test]
fn select_projects_filters_and_renders_in_order() {
    let mut kept = sample_record();
    kept.project.path_on_disk = "/kept".to_owned();
    kept.newest_branch_activity_at = Some(at_secs(86_400 * 2));
    let mut dropped = sample_record();
    dropped.project.path_on_disk = "/dropped".to_owned();
    dropped.project.names = vec!["other".to_owned()];
    let now = at_secs(86_400 * 3);

    let out = select_projects(
        vec![dropped.clone(), kept],
        &["repo-name".to_owned()],
        &[],
        &[],
        now,
    );
    assert_eq!(out.len(), 1);
    assert_eq!(out[0].path_on_disk, "/kept");
    assert_eq!(out[0].last_activity_on.as_deref(), Some("1970-01-03T00:00:00Z"));

    let all = select_projects(vec![dropped], &[], &[], &[], now);
    assert_eq!(all.len(), 1);
    assert_eq!(all[0].last_activity_on, None);
    assert_eq!(all[0].last_activity_ago, None);
}
