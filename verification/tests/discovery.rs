use locate_git_projects_on_my_computer::discovery::activity_output_fields;
use locate_git_projects_on_my_computer::discovery::bstr_to_utf8;
use locate_git_projects_on_my_computer::discovery::activity_walk_cutoff_seconds;
use locate_git_projects_on_my_computer::discovery::cargo_toml_looks_like_template;
use locate_git_projects_on_my_computer::discovery::collect_cargo_link_field;
use locate_git_projects_on_my_computer::discovery::collect_cargo_manifest;
use locate_git_projects_on_my_computer::discovery::collect_cargo_name_field;
use locate_git_projects_on_my_computer::discovery::collect_git_remote_url;
use locate_git_projects_on_my_computer::discovery::collect_path_name;
use locate_git_projects_on_my_computer::discovery::default_enrichment_max_in_flight;
use locate_git_projects_on_my_computer::discovery::format_human_duration;
use locate_git_projects_on_my_computer::discovery::format_relative_activity;
use locate_git_projects_on_my_computer::discovery::format_signature;
use locate_git_projects_on_my_computer::discovery::is_exact_cargo_toml_file;
use locate_git_projects_on_my_computer::discovery::is_exact_dot_git_directory;
use locate_git_projects_on_my_computer::discovery::merge_partials;
use locate_git_projects_on_my_computer::discovery::newest_activity_within_cutoff;
use locate_git_projects_on_my_computer::discovery::next_author_scan_chunk_limit;
use locate_git_projects_on_my_computer::discovery::next_enrichment_step;
use locate_git_projects_on_my_computer::discovery::normalize_non_empty_string;
use locate_git_projects_on_my_computer::discovery::project_key;
use locate_git_projects_on_my_computer::discovery::should_continue_author_scan;
use locate_git_projects_on_my_computer::discovery::system_time_to_unix_seconds;
use locate_git_projects_on_my_computer::discovery::unix_seconds_to_system_time;
use locate_git_projects_on_my_computer::discovery::AuthorScan;
use locate_git_projects_on_my_computer::discovery::AuthorScanStep;
use locate_git_projects_on_my_computer::discovery::CargoManifest;
use locate_git_projects_on_my_computer::discovery::CargoPackage;
use locate_git_projects_on_my_computer::discovery::CargoStringField;
use locate_git_projects_on_my_computer::discovery::CargoStringListField;
use locate_git_projects_on_my_computer::discovery::DiscoveredProject;
use locate_git_projects_on_my_computer::discovery::DiscoveredProjectRecord;
use locate_git_projects_on_my_computer::discovery::DiscoveryConfig;
use locate_git_projects_on_my_computer::discovery::EnrichmentPhase;
use locate_git_projects_on_my_computer::discovery::EnrichmentStep;
use locate_git_projects_on_my_computer::discovery::PartialProject;
use locate_git_projects_on_my_computer::discovery::WorkspaceField;
use locate_git_projects_on_my_computer::string_set::StringSet;
use locate_git_projects_on_my_computer::time::TimeSpan;
use locate_git_projects_on_my_computer::time::Timestamp;
use std::time::Duration;

fn at_secs(secs: u64) -> Timestamp {
    Timestamp::unix_epoch()
        .checked_add(TimeSpan::from_secs(secs))
        .expect("time should fit")
}

fn set_of(values: &[&str]) -> StringSet {
    StringSet::from_vec(values.iter().map(|v| v.to_string()).collect())
}

#[test]
fn collects_all_cargo_link_fields_into_outlinks() {
    let mut outlinks = StringSet::new();

    collect_cargo_link_field(
        Some(CargoStringField::Value(
            "https://github.com/example/repo".to_owned(),
        )),
        &mut outlinks,
    );
    collect_cargo_link_field(
        Some(CargoStringField::Value(
            "https://example.com/project".to_owned(),
        )),
        &mut outlinks,
    );
    collect_cargo_link_field(
        Some(CargoStringField::Workspace(WorkspaceField {
            workspace: true,
        })),
        &mut outlinks,
    );

    assert_eq!(
        outlinks.into_vec(),
        vec![
            "https://example.com/project".to_owned(),
            "https://github.com/example/repo".to_owned(),
        ]
    );
}

#[test]
fn collects_directory_and_cargo_names_into_names() {
    let mut names = StringSet::new();
    let path = std::path::Path::new("/repos/example-repo");

    collect_path_name(path.file_name().and_then(|n| n.to_str()), &mut names);
    collect_cargo_name_field(Some("crate-name"), &mut names);
    collect_cargo_name_field(Some("   "), &mut names);
    collect_cargo_name_field(None, &mut names);

    assert_eq!(
        names.into_vec(),
        vec!["crate-name".to_owned(), "example-repo".to_owned()]
    );
}

#[test]
fn collects_path_and_cargo_names_into_names() {
    let mut names = StringSet::new();

    // The last component of `C:\Repos\example-repo` where `\` separates
    // path components.
    collect_path_name(Some("example-repo"), &mut names);
    collect_cargo_name_field(Some("crate-name"), &mut names);

    assert_eq!(
        names.into_vec(),
        vec!["crate-name".to_owned(), "example-repo".to_owned()]
    );
}

#[test]
fn detects_template_placeholders_in_manifest_contents() {
    assert!(cargo_toml_looks_like_template("name = \"{{crate_name}}\""));
    assert!(!cargo_toml_looks_like_template("name = \"normal-package\""));
    assert!(cargo_toml_looks_like_template("}}"));
    assert!(!cargo_toml_looks_like_template("{ }"));
}

#[test]
fn merges_metadata_for_same_project_path() {
    let mut first = PartialProject {
        path_on_disk: r"C:\Repo".to_owned(),
        ..Default::default()
    };
    first.names = set_of(&["Repo"]);
    first.outlinks = set_of(&["https://example.com/one"]);
    first.authors = set_of(&["Ada <ada@example.com>"]);

    let mut second = PartialProject {
        path_on_disk: r"C:\Repo".to_owned(),
        ..Default::default()
    };
    second.names = set_of(&["repo-crate"]);
    second.outlinks = set_of(&["https://example.com/one", "https://example.com/two"]);
    second.authors = set_of(&["Grace <grace@example.com>"]);

    let merged = merge_partials(vec![first, second], None, false);
    assert_eq!(merged.len(), 1);
    assert_eq!(merged[0].project.path_on_disk, r"C:\Repo");
    assert_eq!(
        merged[0].project.names,
        vec!["Repo".to_owned(), "repo-crate".to_owned()]
    );
    assert_eq!(
        merged[0].project.outlinks,
        vec![
            "https://example.com/one".to_owned(),
            "https://example.com/two".to_owned(),
        ]
    );
    assert_eq!(
        merged[0].project.authors,
        vec![
            "Ada <ada@example.com>".to_owned(),
            "Grace <grace@example.com>".to_owned(),
        ]
    );
}

#[test]
fn formats_git_signature_like_git() {
    assert_eq!(
        format_signature(Some("Ada"), Some("ada@example.com")),
        Some("Ada <ada@example.com>".to_owned())
    );
    assert_eq!(format_signature(Some("Ada"), None), Some("Ada".to_owned()));
    assert_eq!(
        format_signature(None, Some("ada@example.com")),
        Some("<ada@example.com>".to_owned())
    );
    assert_eq!(format_signature(None, None), None);
}

#[test]
fn signature_parts_are_trimmed_and_blank_parts_dropped() {
    assert_eq!(
        format_signature(Some("  Ada "), Some(" \t")),
        Some("Ada".to_owned())
    );
    assert_eq!(format_signature(Some(""), Some("")), None);
}

#[test]
fn project_key_is_case_insensitive_on_windows() {
    assert_eq!(project_key(r"C:\Repo", true), project_key(r"c:\repo", true));
}

#[test]
fn project_key_is_the_path_where_paths_are_case_sensitive() {
    assert_eq!(project_key("/Repo", false), "/Repo");
    assert_ne!(project_key("/Repo", false), project_key("/repo", false));
    assert_eq!(project_key("/ÄB", true), "/Äb");
}

#[test]
fn merge_joins_paths_differing_in_case_only_where_paths_are_case_insensitive() {
    let upper = PartialProject::at_path(r"C:\Repo".to_owned());
    let lower = PartialProject::at_path(r"c:\repo".to_owned());
    let merged = merge_partials(vec![upper, lower], None, true);
    assert_eq!(merged.len(), 1);
    assert_eq!(merged[0].project.path_on_disk, r"C:\Repo");

    let upper = PartialProject::at_path(r"C:\Repo".to_owned());
    let lower = PartialProject::at_path(r"c:\repo".to_owned());
    let merged = merge_partials(vec![upper, lower], None, false);
    assert_eq!(merged.len(), 2);
    assert_eq!(merged[0].project.path_on_disk, r"C:\Repo");
    assert_eq!(merged[1].project.path_on_disk, r"c:\repo");
}

#[test]
fn merge_orders_projects_by_path_and_sorts_metadata_like_str() {
    let mut b = PartialProject::at_path("/b".to_owned());
    b.names = set_of(&["zeta", "Alpha", "alpha", "éclair", "alpha"]);
    let a = PartialProject::at_path("/a".to_owned());
    let merged = merge_partials(vec![b, a], None, false);
    let paths: Vec<&str> = merged.iter().map(|r| r.project.path_on_disk.as_str()).collect();
    assert_eq!(paths, vec!["/a", "/b"]);
    let mut expected = vec!["zeta", "Alpha", "alpha", "éclair"];
    expected.sort();
    assert_eq!(merged[1].project.names, expected);
}

#[test]
fn discovery_config_treats_zero_max_in_flight_as_unbounded() {
    let config = DiscoveryConfig::with_overrides(Some(0), Some(8), Some(250), Some(0), None);

    assert_eq!(config.max_in_flight, None);
    assert_eq!(config.author_min_commits, 8);
    assert_eq!(config.author_scan_budget, TimeSpan::from_millis(250));
    assert_eq!(config.author_scan_chunk_size, 1);
    assert_eq!(config.activity_cutoff, None);
}

#[test]
fn discovery_config_defaults_and_sanitizing() {
    let defaults = DiscoveryConfig::default();
    assert_eq!(defaults.max_in_flight, Some(default_enrichment_max_in_flight()));
    assert_eq!(defaults.max_in_flight, Some(64));
    assert_eq!(defaults.author_min_commits, 1);
    assert_eq!(defaults.author_scan_budget, TimeSpan::zero());
    assert_eq!(defaults.author_scan_chunk_size, 64);
    assert_eq!(
        DiscoveryConfig::with_overrides(None, None, None, None, None),
        defaults
    );
    let sanitized = DiscoveryConfig::with_overrides(Some(3), None, None, Some(5), Some(at_secs(7)));
    assert_eq!(sanitized.sanitized(), sanitized);
    assert_eq!(sanitized.max_in_flight, Some(3));
    assert_eq!(sanitized.activity_cutoff, Some(at_secs(7)));
}

#[test]
fn author_scan_continues_until_minimum_commits_are_scanned() {
    let config = DiscoveryConfig {
        max_in_flight: None,
        author_min_commits: 4,
        author_scan_budget: TimeSpan::zero(),
        author_scan_chunk_size: 2,
        activity_cutoff: None,
    };
    let elapsed = TimeSpan::from_secs(1);

    assert!(should_continue_author_scan(0, elapsed, config));
    assert!(should_continue_author_scan(3, elapsed, config));
    assert!(!should_continue_author_scan(4, elapsed, config));
}

#[test]
fn author_scan_uses_budget_after_minimum_commits_are_scanned() {
    let config = DiscoveryConfig {
        max_in_flight: None,
        author_min_commits: 2,
        author_scan_budget: TimeSpan::from_secs(5),
        author_scan_chunk_size: 3,
        activity_cutoff: None,
    };

    assert!(should_continue_author_scan(2, TimeSpan::zero(), config));
    assert!(!should_continue_author_scan(
        2,
        TimeSpan::from_secs(10),
        config,
    ));
}

#[test]
fn author_scan_chunk_limit_finishes_minimum_before_regular_chunks() {
    let config = DiscoveryConfig {
        max_in_flight: None,
        author_min_commits: 5,
        author_scan_budget: TimeSpan::from_secs(1),
        author_scan_chunk_size: 3,
        activity_cutoff: None,
    };

    assert_eq!(next_author_scan_chunk_limit(0, config), 3);
    assert_eq!(next_author_scan_chunk_limit(3, config), 2);
    assert_eq!(next_author_scan_chunk_limit(5, config), 3);
}

#[test]
fn author_scan_state_machine_reads_minimum_then_stops_when_budget_is_spent() {
    let config = DiscoveryConfig {
        max_in_flight: None,
        author_min_commits: 5,
        author_scan_budget: TimeSpan::zero(),
        author_scan_chunk_size: 3,
        activity_cutoff: None,
    };
    let mut scan = AuthorScan::new();
    let mut read = 0;
    loop {
        match scan.next_step(TimeSpan::from_secs(100), config) {
            AuthorScanStep::ReadCommit => {
                scan.commit_read();
                read += 1;
            }
            AuthorScanStep::Recheck => {}
            AuthorScanStep::Stop => break,
        }
    }
    assert_eq!(read, 5);
    assert_eq!(scan.scanned_commits, 5);
}

#[test]
fn author_scan_state_machine_keeps_reading_within_budget() {
    let config = DiscoveryConfig {
        max_in_flight: None,
        author_min_commits: 1,
        author_scan_budget: TimeSpan::from_secs(5),
        author_scan_chunk_size: 2,
        activity_cutoff: None,
    };
    let mut scan = AuthorScan::new();
    let mut read = 0;
    for _ in 0..7 {
        match scan.next_step(TimeSpan::from_secs(1), config) {
            AuthorScanStep::ReadCommit => {
                scan.commit_read();
                read += 1;
            }
            other => panic!("unexpected step {other:?}"),
        }
    }
    assert_eq!(read, 7);
    // At the end of a chunk the spent budget stops the scan.
    assert_eq!(scan.next_step(TimeSpan::from_secs(6), config), AuthorScanStep::Stop);
    assert_eq!(scan.scanned_commits, 7);
}

#[test]
fn enrichment_steps_respect_the_bound() {
    assert_eq!(next_enrichment_step(3, 1, Some(2)), EnrichmentStep::Spawn);
    assert_eq!(next_enrichment_step(3, 2, Some(2)), EnrichmentStep::JoinOne);
    assert_eq!(next_enrichment_step(3, 100, None), EnrichmentStep::Spawn);
    assert_eq!(next_enrichment_step(0, 2, Some(2)), EnrichmentStep::JoinOne);
    assert_eq!(next_enrichment_step(0, 0, None), EnrichmentStep::Finish);
}

#[test]
fn merge_partials_keeps_newest_branch_activity() {
    let newer = at_secs(20);
    let older = at_secs(10);

    let first = PartialProject {
        path_on_disk: r"C:\Repo".to_owned(),
        newest_branch_activity_at: Some(older),
        ..Default::default()
    };
    let second = PartialProject {
        path_on_disk: r"C:\Repo".to_owned(),
        newest_branch_activity_at: Some(newer),
        ..Default::default()
    };

    let merged = merge_partials(vec![first, second], None, false);

    assert_eq!(merged.len(), 1);
    assert_eq!(merged[0].newest_branch_activity_at, Some(newer));
}

#[test]
fn merge_partials_applies_activity_cutoff() {
    let newer = at_secs(20);
    let older = at_secs(10);

    let recent = PartialProject {
        path_on_disk: r"C:\Recent".to_owned(),
        newest_branch_activity_at: Some(newer),
        ..Default::default()
    };
    let stale = PartialProject {
        path_on_disk: r"C:\Stale".to_owned(),
        newest_branch_activity_at: Some(older),
        ..Default::default()
    };
    let cargo_only = PartialProject {
        path_on_disk: r"C:\CargoOnly".to_owned(),
        ..Default::default()
    };

    let merged = merge_partials(vec![recent, stale, cargo_only], Some(at_secs(15)), false);

    assert_eq!(merged.len(), 1);
    assert_eq!(merged[0].project.path_on_disk, r"C:\Recent");
}

#[test]
fn merge_cutoff_is_exclusive() {
    let exact = PartialProject {
        path_on_disk: "/exact".to_owned(),
        newest_branch_activity_at: Some(at_secs(15)),
        ..Default::default()
    };
    let later = PartialProject {
        path_on_disk: "/later".to_owned(),
        newest_branch_activity_at: Some(at_secs(16)),
        ..Default::default()
    };
    let merged = merge_partials(vec![exact, later], Some(at_secs(15)), false);
    assert_eq!(merged.len(), 1);
    assert_eq!(merged[0].project.path_on_disk, "/later");
    assert!(merge_partials(vec![], None, false).is_empty());
}

#[test]
fn project_record_formats_activity_fields_for_output() {
    let now = at_secs(86_400 * 3);
    let activity_at = at_secs(86_400 * 2);
    let expected_ago = format!(
        "{} ago",
        humantime::format_duration(Duration::from_secs(86_400))
    );
    let project = DiscoveredProjectRecord {
        project: DiscoveredProject {
            path_on_disk: r"C:\Repo".to_owned(),
            ..Default::default()
        },
        newest_branch_activity_at: Some(activity_at),
    }
    .into_project_at(now);

    assert_eq!(project.last_activity_on.as_deref(), Some("1970-01-03T00:00:00Z"));
    assert_eq!(project.last_activity_ago.as_deref(), Some(expected_ago.as_str()));
}

#[test]
fn into_project_renders_against_the_current_time() {
    let project = DiscoveredProjectRecord {
        project: DiscoveredProject {
            path_on_disk: "/repo".to_owned(),
            names: vec!["repo".to_owned()],
            ..Default::default()
        },
        newest_branch_activity_at: Some(at_secs(0)),
    }
    .into_project();
    assert_eq!(project.path_on_disk, "/repo");
    assert_eq!(project.names, vec!["repo".to_owned()]);
    assert_eq!(project.last_activity_on.as_deref(), Some("1970-01-01T00:00:00Z"));
    assert!(project.last_activity_ago.unwrap().ends_with(" ago"));
}

#[test]
fn activity_output_fields_return_none_without_timestamp() {
    let now = at_secs(5);

    assert_eq!(activity_output_fields(None, now), (None, None));
}

#[test]
fn relative_activity_formats_future_values() {
    let now = at_secs(10);
    let activity_at = at_secs(25);

    assert_eq!(
        format_relative_activity(activity_at, now),
        format!("in {}", humantime::format_duration(Duration::from_secs(15)))
    );
}

#[test]
fn relative_activity_of_the_same_instant_is_zero_ago() {
    let now = at_secs(10);
    assert_eq!(format_relative_activity(now, now), "0s ago");
}

#[test]
fn human_duration_drops_subsecond_noise() {
    assert_eq!(
        format_human_duration(TimeSpan::from_millis(1_999)),
        humantime::format_duration(Duration::from_secs(1)).to_string()
    );
    assert_eq!(format_human_duration(TimeSpan::from_secs(9_420)), "2h 37m");
}

#[test]
fn marker_predicates_match_names_exactly_ignoring_ascii_case() {
    assert!(is_exact_dot_git_directory(true, Some(".git")));
    assert!(is_exact_dot_git_directory(true, Some(".GIT")));
    assert!(!is_exact_dot_git_directory(false, Some(".git")));
    assert!(!is_exact_dot_git_directory(true, Some("x.git")));
    assert!(!is_exact_dot_git_directory(true, None));
    assert!(is_exact_cargo_toml_file(true, Some("cargo.TOML")));
    assert!(!is_exact_cargo_toml_file(true, Some("Cargo.toml.bak")));
    assert!(!is_exact_cargo_toml_file(false, Some("Cargo.toml")));
}

#[test]
fn normalizes_values_by_trimming() {
    assert_eq!(normalize_non_empty_string("  a b \n"), Some("a b".to_owned()));
    assert_eq!(normalize_non_empty_string(" \u{3000}\t"), None);
    assert_eq!(normalize_non_empty_string(""), None);
}

#[test]
fn collects_cargo_manifest_metadata() {
    let manifest = CargoManifest {
        package: Some(CargoPackage {
            name: Some("example-repo".to_owned()),
            repository: Some(CargoStringField::Value(
                "https://github.com/example/repo".to_owned(),
            )),
            homepage: Some(CargoStringField::Workspace(WorkspaceField { workspace: true })),
            documentation: Some(CargoStringField::Value(" https://docs.rs/example ".to_owned())),
            authors: Some(CargoStringListField::Value(vec![
                "Grace <grace@example.com>".to_owned(),
                " ".to_owned(),
                "Ada <ada@example.com>".to_owned(),
            ])),
        }),
    };
    let mut project = PartialProject::at_path("/repo".to_owned());
    collect_cargo_manifest(manifest, &mut project);
    assert_eq!(project.path_on_disk, "/repo");
    assert_eq!(project.names.into_vec(), vec!["example-repo".to_owned()]);
    assert_eq!(
        project.outlinks.into_vec(),
        vec![
            "https://docs.rs/example".to_owned(),
            "https://github.com/example/repo".to_owned()
        ]
    );
    assert_eq!(
        project.authors.into_vec(),
        vec![
            "Ada <ada@example.com>".to_owned(),
            "Grace <grace@example.com>".to_owned()
        ]
    );

    let mut empty = PartialProject::at_path("/empty".to_owned());
    collect_cargo_manifest(CargoManifest { package: None }, &mut empty);
    assert_eq!(empty.names.len(), 0);
    let workspace_authors = CargoManifest {
        package: Some(CargoPackage {
            authors: Some(CargoStringListField::Workspace(WorkspaceField { workspace: true })),
            ..Default::default()
        }),
    };
    collect_cargo_manifest(workspace_authors, &mut empty);
    assert_eq!(empty.authors.len(), 0);
}

#[test]
fn collects_git_remote_urls() {
    let mut outlinks = StringSet::new();
    collect_git_remote_url(Some(b" https://example.com/repo.git "), &mut outlinks);
    collect_git_remote_url(Some(b"https://example.com/repo.git"), &mut outlinks);
    collect_git_remote_url(None, &mut outlinks);
    collect_git_remote_url(Some(b"   "), &mut outlinks);
    assert_eq!(outlinks.into_vec(), vec!["https://example.com/repo.git".to_owned()]);

    let mut lossy = StringSet::new();
    collect_git_remote_url(Some(b"https://example.com/\xff.git"), &mut lossy);
    assert_eq!(lossy.into_vec(), vec!["https://example.com/\u{FFFD}.git".to_owned()]);
}

#[test]
fn unix_seconds_conversions() {
    assert_eq!(unix_seconds_to_system_time(-1), None);
    assert_eq!(unix_seconds_to_system_time(20), Some(at_secs(20)));
    assert_eq!(system_time_to_unix_seconds(at_secs(20)), Some(20));
    assert_eq!(
        system_time_to_unix_seconds(Timestamp::from_unix_secs(-5)),
        None
    );
    assert_eq!(activity_walk_cutoff_seconds(Some(at_secs(9))), Some(9));
    assert_eq!(activity_walk_cutoff_seconds(None), None);
}

#[test]
fn newest_activity_respects_cutoff() {
    assert_eq!(
        newest_activity_within_cutoff(Some(at_secs(20)), Some(at_secs(15))),
        Some(at_secs(20))
    );
    assert_eq!(
        newest_activity_within_cutoff(Some(at_secs(10)), Some(at_secs(15))),
        None
    );
    assert_eq!(
        newest_activity_within_cutoff(Some(at_secs(10)), None),
        Some(at_secs(10))
    );
    assert_eq!(
        newest_activity_within_cutoff(Some(at_secs(15)), Some(at_secs(15))),
        None
    );
    assert_eq!(newest_activity_within_cutoff(None, Some(at_secs(1))), None);
}

#[test]
fn signature_bytes_decode_only_valid_utf8() {
    assert_eq!(bstr_to_utf8("Ada é".as_bytes()), Some("Ada é"));
    assert_eq!(bstr_to_utf8(&[0x41, 0xff]), None);
    assert_eq!(
        format_signature(bstr_to_utf8(b"Ada"), bstr_to_utf8(&[0xc3])),
        Some("Ada".to_owned())
    );
}

fn partial_of(path: &str, name: &str, author: &str, secs: Option<u64>) -> PartialProject {
    PartialProject {
        path_on_disk: path.to_owned(),
        names: set_of(&[name]),
        outlinks: StringSet::new(),
        authors: set_of(&[author]),
        newest_branch_activity_at: secs.map(at_secs),
    }
}

#[test]
fn merge_result_ignores_the_order_of_partials() {
    let in_order = || {
        vec![
            partial_of("/b", "b-dir", "Ada", Some(30)),
            partial_of("/a", "a-dir", "Grace", None),
            partial_of("/b", "b-crate", "Linus", Some(40)),
            partial_of("/a", "a-crate", "Ada", Some(5)),
        ]
    };
    let mut reversed = in_order();
    reversed.reverse();
    let rotated = {
        let mut v = in_order();
        v.rotate_left(1);
        v
    };
    let first = merge_partials(in_order(), None, false);
    assert_eq!(merge_partials(reversed, None, false), first);
    assert_eq!(merge_partials(rotated, None, false), first);
    assert_eq!(first.len(), 2);
    assert_eq!(first[0].project.names, vec!["a-crate".to_owned(), "a-dir".to_owned()]);
    assert_eq!(first[1].newest_branch_activity_at, Some(at_secs(40)));
}

fn simulate_enrichment(seeds: usize, max_in_flight: Option<usize>) -> (usize, bool, usize) {
    let (mut pending, mut in_flight, mut peak, mut joined) = (seeds, 0, 0, 0);
    let mut joined_while_pending = false;
    loop {
        match next_enrichment_step(pending, in_flight, max_in_flight) {
            EnrichmentStep::Spawn => {
                pending -= 1;
                in_flight += 1;
                peak = peak.max(in_flight);
            }
            EnrichmentStep::JoinOne => {
                joined_while_pending |= pending > 0;
                in_flight -= 1;
                joined += 1;
            }
            EnrichmentStep::Finish => break,
        }
    }
    assert_eq!((pending, in_flight), (0, 0));
    (peak, joined_while_pending, joined)
}

#[test]
fn enrichment_run_never_exceeds_the_bound() {
    assert_eq!(simulate_enrichment(7, Some(2)), (2, true, 7));
    assert_eq!(simulate_enrichment(7, Some(10)), (7, false, 7));
    assert_eq!(simulate_enrichment(7, None), (7, false, 7));
    assert_eq!(simulate_enrichment(0, Some(1)), (0, false, 0));
}

fn simulate_author_scan(config: DiscoveryConfig, commits: usize, elapsed: TimeSpan) -> usize {
    let mut scan = AuthorScan::new();
    let mut read = 0;
    loop {
        match scan.next_step(elapsed, config) {
            AuthorScanStep::Stop => return read,
            AuthorScanStep::Recheck => continue,
            AuthorScanStep::ReadCommit => {}
        }
        if read == commits {
            return read;
        }
        scan.commit_read();
        read += 1;
    }
}

#[test]
fn author_scan_reads_exactly_the_minimum_without_a_budget() {
    let config = DiscoveryConfig {
        max_in_flight: None,
        author_min_commits: 5,
        author_scan_budget: TimeSpan::zero(),
        author_scan_chunk_size: 2,
        activity_cutoff: None,
    };
    assert_eq!(simulate_author_scan(config, 100, TimeSpan::zero()), 5);
    assert_eq!(simulate_author_scan(config, 3, TimeSpan::zero()), 3);
    let none = DiscoveryConfig { author_min_commits: 0, ..config };
    assert_eq!(simulate_author_scan(none, 100, TimeSpan::zero()), 0);
}

#[test]
fn author_scan_covers_the_minimum_whatever_the_budget() {
    let config = DiscoveryConfig {
        max_in_flight: None,
        author_min_commits: 4,
        author_scan_budget: TimeSpan::from_secs(1),
        author_scan_chunk_size: 3,
        activity_cutoff: None,
    };
    assert_eq!(simulate_author_scan(config, 100, TimeSpan::from_secs(60)), 4);
    assert_eq!(simulate_author_scan(config, 2, TimeSpan::from_secs(60)), 2);
    assert_eq!(simulate_author_scan(config, 20, TimeSpan::zero()), 20);
}

#[test]
fn enrichment_phase_merges_every_finished_result() {
    let mut seeds = vec![
        partial_of("/b", "b-dir", "Ada", Some(30)),
        partial_of("/a", "a-dir", "Grace", None),
        partial_of("/b", "b-crate", "Linus", Some(40)),
    ]
    .into_iter();
    let mut phase = EnrichmentPhase::new(4, Some(2));
    let mut running: Vec<Option<PartialProject>> = Vec::new();
    let mut started = 0;
    let mut peak = 0;
    loop {
        match phase.next_step() {
            EnrichmentStep::Spawn => {
                phase.task_started();
                started += 1;
                // The fourth candidate's task fails.
                running.push(seeds.next());
                peak = peak.max(running.len());
            }
            EnrichmentStep::JoinOne => {
                // Tasks finish in the reverse order of their start.
                let result = running.pop().unwrap();
                phase.task_finished(result);
            }
            EnrichmentStep::Finish => break,
        }
    }
    assert_eq!(started, 4);
    assert_eq!(peak, 2);
    let records = phase.into_records(None, false);
    let expected = merge_partials(
        vec![
            partial_of("/b", "b-dir", "Ada", Some(30)),
            partial_of("/a", "a-dir", "Grace", None),
            partial_of("/b", "b-crate", "Linus", Some(40)),
        ],
        None,
        false,
    );
    assert_eq!(records, expected);
}
