//! Discovery of source projects: configuration, the per-project metadata
//! that enrichment gathers, how it is merged by project directory, and the
//! decisions that drive enrichment and git author scanning.
//!
//! Reading the disk (the indexed queries, git repositories, `Cargo.toml`
//! files) happens outside this module; everything decided about what was
//! read happens here.

use vstd::prelude::*;
use vstd::string::StrSliceExecFns;
use crate::string_set::strictly_sorted;
use crate::string_set::StringSet;
use crate::text::contains_text;
use crate::text::str_contains;
use crate::text::str_eq_ignore_ascii_case;
use crate::text::eq_ignoring_ascii_case;
use crate::text::texts;
use crate::text::trim;
use crate::text::trimmed;
use crate::time::format_humantime_duration;
use crate::time::format_humantime_rfc3339_seconds;
use crate::time::humantime_duration_text;
use crate::time::humantime_rfc3339_seconds_text;
use crate::time::TimeSpan;
use crate::time::Timestamp;
use crate::time::RFC3339_LIMIT_SECS;

verus! {

// ---------------------------------------------------------------------------
// Configuration
// ---------------------------------------------------------------------------

/// Enrichment tasks allowed in flight unless configured otherwise.
pub const DEFAULT_ENRICHMENT_MAX_IN_FLIGHT: usize = 64;

/// Commits scanned for authors before the time budget may stop the walk,
/// unless configured otherwise.
pub const DEFAULT_AUTHOR_MIN_COMMITS: usize = 1;

/// Commits scanned between time-budget checks, unless configured otherwise.
pub const DEFAULT_AUTHOR_SCAN_CHUNK_SIZE: usize = 64;

/// The default number of enrichment tasks in flight.
pub fn default_enrichment_max_in_flight() -> (out: usize)
    ensures
        out == DEFAULT_ENRICHMENT_MAX_IN_FLIGHT,
{
    DEFAULT_ENRICHMENT_MAX_IN_FLIGHT
}

/// Tuning of a discovery run.
#[derive(Clone, Copy, Debug, PartialEq, Eq)]
pub struct DiscoveryConfig {
    /// Enrichment tasks allowed in flight; `None` means unbounded.
    pub max_in_flight: Option<usize>,
    /// Commits to scan for authors before the time budget can stop the walk.
    pub author_min_commits: usize,
    /// Time allowed for scanning authors once the minimum is reached.
    pub author_scan_budget: TimeSpan,
    /// Commits to scan between time-budget checks.
    pub author_scan_chunk_size: usize,
    /// Keep only projects with branch activity after this time.
    pub activity_cutoff: Option<Timestamp>,
}

/// The configuration used when nothing is overridden.
pub open spec fn is_default_config(c: DiscoveryConfig) -> bool {
    &&& c.max_in_flight == Some(DEFAULT_ENRICHMENT_MAX_IN_FLIGHT)
    &&& c.author_min_commits == DEFAULT_AUTHOR_MIN_COMMITS
    &&& c.author_scan_budget@ == 0
    &&& c.author_scan_chunk_size == DEFAULT_AUTHOR_SCAN_CHUNK_SIZE
    &&& c.activity_cutoff is None
}

/// A configuration that [`DiscoveryConfig::sanitized`] leaves as it is: no
/// bound of zero tasks in flight, and chunks of at least one commit.
pub open spec fn is_sanitized(c: DiscoveryConfig) -> bool {
    &&& c.max_in_flight != Some(0usize)
    &&& c.author_scan_chunk_size >= 1
}

impl Default for DiscoveryConfig {
    fn default() -> (out: Self)
        ensures
            is_default_config(out),
    {
        DiscoveryConfig {
            max_in_flight: Some(default_enrichment_max_in_flight()),
            author_min_commits: DEFAULT_AUTHOR_MIN_COMMITS,
            author_scan_budget: TimeSpan::zero(),
            author_scan_chunk_size: DEFAULT_AUTHOR_SCAN_CHUNK_SIZE,
            activity_cutoff: None,
        }
    }
}

impl DiscoveryConfig {
    /// The default configuration with the given values in place of the
    /// defaults, sanitized: a bound of zero tasks in flight means unbounded,
    /// and chunks hold at least one commit.
    pub fn with_overrides(
        max_in_flight: Option<usize>,
        author_min_commits: Option<usize>,
        author_scan_budget_ms: Option<u64>,
        author_scan_chunk_size: Option<usize>,
        activity_cutoff: Option<Timestamp>,
    ) -> (out: Self)
        ensures
            out.max_in_flight == match max_in_flight {
                None => Some(DEFAULT_ENRICHMENT_MAX_IN_FLIGHT),
                Some(n) => if n > 0 {
                    Some(n)
                } else {
                    None
                },
            },
            out.author_min_commits == match author_min_commits {
                None => DEFAULT_AUTHOR_MIN_COMMITS,
                Some(n) => n,
            },
            out.author_scan_budget@ == match author_scan_budget_ms {
                None => 0,
                Some(ms) => ms * 1_000_000,
            },
            out.author_scan_chunk_size == match author_scan_chunk_size {
                None => DEFAULT_AUTHOR_SCAN_CHUNK_SIZE,
                Some(n) => if n >= 1 {
                    n
                } else {
                    1
                },
            },
            out.activity_cutoff == activity_cutoff,
            is_sanitized(out),
    {
        let defaults = Self::default();
        let budget = match author_scan_budget_ms {
            Some(ms) => TimeSpan::from_millis(ms),
            None => TimeSpan::zero(),
        };
        let chosen_max = match max_in_flight {
            Some(n) => Some(n),
            None => defaults.max_in_flight,
        };
        Self {
            max_in_flight: chosen_max,
            author_min_commits: match author_min_commits {
                Some(n) => n,
                None => DEFAULT_AUTHOR_MIN_COMMITS,
            },
            author_scan_budget: budget,
            author_scan_chunk_size: match author_scan_chunk_size {
                Some(n) => n,
                None => DEFAULT_AUTHOR_SCAN_CHUNK_SIZE,
            },
            activity_cutoff,
        }.sanitized()
    }

    /// Turns a bound of zero tasks in flight into no bound, and raises a
    /// chunk size of zero to one.
    pub fn sanitized(self) -> (out: Self)
        ensures
            out.max_in_flight == match self.max_in_flight {
                Some(n) => if n > 0 {
                    Some(n)
                } else {
                    None
                },
                None => None,
            },
            out.author_min_commits == self.author_min_commits,
            out.author_scan_budget == self.author_scan_budget,
            out.author_scan_chunk_size == if self.author_scan_chunk_size >= 1 {
                self.author_scan_chunk_size
            } else {
                1
            },
            out.activity_cutoff == self.activity_cutoff,
            is_sanitized(out),
            is_sanitized(self) ==> out == self,
    {
        Self {
            max_in_flight: match self.max_in_flight {
                Some(n) => if n > 0 {
                    Some(n)
                } else {
                    None
                },
                None => None,
            },
            author_min_commits: self.author_min_commits,
            author_scan_budget: self.author_scan_budget,
            author_scan_chunk_size: if self.author_scan_chunk_size >= 1 {
                self.author_scan_chunk_size
            } else {
                1
            },
            activity_cutoff: self.activity_cutoff,
        }
    }
}

// ---------------------------------------------------------------------------
// Discovered projects and their activity fields
// ---------------------------------------------------------------------------

/// A single source project found on disk.
#[derive(Debug, Clone, PartialEq, Eq, Default)]
pub struct DiscoveredProject {
    /// The on-disk path for this specific discovered project entry.
    pub path_on_disk: String,
    /// Project names gathered from directory names or package metadata.
    pub names: Vec<String>,
    /// Source repository or file URIs associated with this entry.
    pub outlinks: Vec<String>,
    /// Authors gathered from repository history or package metadata.
    pub authors: Vec<String>,
    /// The newest discovered branch activity as an RFC 3339 timestamp.
    pub last_activity_on: Option<String>,
    /// The newest discovered branch activity relative to when the command ran.
    pub last_activity_ago: Option<String>,
}

/// A discovered project together with the time of its newest branch
/// activity, before that time is rendered for output.
#[derive(Debug, Clone, PartialEq, Eq)]
pub struct DiscoveredProjectRecord {
    pub project: DiscoveredProject,
    pub newest_branch_activity_at: Option<Timestamp>,
}

/// The text of an optional string.
pub open spec fn opt_text(s: Option<String>) -> Option<Seq<char>> {
    match s {
        Some(s) => Some(s@),
        None => None,
    }
}

/// The offset in nanoseconds of an optional timestamp.
pub open spec fn opt_instant(t: Option<Timestamp>) -> Option<int> {
    match t {
        Some(t) => Some(t@),
        None => None,
    }
}

/// Whether `humantime` can render the activity time: not before the epoch
/// and before the year 10000.
pub open spec fn renderable_activity(t: Option<Timestamp>) -> bool {
    t matches Some(t) ==> 0 <= t@ < RFC3339_LIMIT_SECS as int * 1_000_000_000
}

/// The whole seconds of a span given in nanoseconds.
pub open spec fn whole_secs(nanos: int) -> u64 {
    (nanos / 1_000_000_000) as u64
}

/// How long ago (`"<span> ago"`) or how far ahead (`"in <span>"`) `at` lies,
/// seen from `now`, in whole seconds.
pub open spec fn relative_activity_text(at: int, now: int) -> Seq<char> {
    if now >= at {
        humantime_duration_text(whole_secs(now - at), 0) + " ago"@
    } else {
        "in "@ + humantime_duration_text(whole_secs(at - now), 0)
    }
}

/// The RFC 3339 text of a time at or after the epoch.
pub open spec fn rfc3339_text(at: int) -> Seq<char> {
    humantime_rfc3339_seconds_text(whole_secs(at), (at % 1_000_000_000) as u32)
}

/// `out` is `record`'s project with its activity fields rendered at `now`.
pub open spec fn rendered_project(
    record: DiscoveredProjectRecord,
    now: Timestamp,
    out: DiscoveredProject,
) -> bool {
    &&& out.path_on_disk == record.project.path_on_disk
    &&& out.names == record.project.names
    &&& out.outlinks == record.project.outlinks
    &&& out.authors == record.project.authors
    &&& match record.newest_branch_activity_at {
        None => out.last_activity_on is None && out.last_activity_ago is None,
        Some(at) => {
            &&& opt_text(out.last_activity_on) == Some(rfc3339_text(at@))
            &&& opt_text(out.last_activity_ago) == Some(relative_activity_text(at@, now@))
        },
    }
}

/// The span as text, without its fraction of a second.
pub fn format_human_duration(duration: TimeSpan) -> (out: String)
    ensures
        out@ == humantime_duration_text(whole_secs(duration@), 0),
{
    proof {
        use_type_invariant(&duration);
        TimeSpan::lemma_span_facts(duration, duration);
    }
    format_humantime_duration(duration.as_secs(), 0)
}

/// How long ago, or how far ahead, `activity_at` lies as seen from `now`.
pub fn format_relative_activity(activity_at: Timestamp, now: Timestamp) -> (out: String)
    ensures
        out@ == relative_activity_text(activity_at@, now@),
{
    match now.duration_since(&activity_at) {
        Some(ago) => {
            let mut out = format_human_duration(ago);
            out.append(" ago");
            out
        },
        None => match activity_at.duration_since(&now) {
            Some(ahead) => {
                let text = format_human_duration(ahead);
                let mut out = String::from_str("in ");
                out.append(text.as_str());
                out
            },
            None => {
                assert(false);
                String::from_str("0s ago")
            },
        },
    }
}

/// The output fields for the newest activity: an RFC 3339 timestamp and a
/// relative description, or neither when no activity is known.
pub fn activity_output_fields(activity_at: Option<Timestamp>, now: Timestamp) -> (out: (
    Option<String>,
    Option<String>,
))
    requires
        renderable_activity(activity_at),
    ensures
        match activity_at {
            None => out.0 is None && out.1 is None,
            Some(at) => {
                &&& opt_text(out.0) == Some(rfc3339_text(at@))
                &&& opt_text(out.1) == Some(relative_activity_text(at@, now@))
            },
        },
{
    match activity_at {
        None => (None, None),
        Some(at) => {
            let secs = at.unix_secs();
            let nanos = at.subsec_nanos();
            assert(secs < RFC3339_LIMIT_SECS) by (nonlinear_arith)
                requires
                    secs == at@ / 1_000_000_000,
                    at@ < 253_402_300_800 * 1_000_000_000,
            ;
            assert(secs >= 0) by (nonlinear_arith)
                requires
                    secs == at@ / 1_000_000_000,
                    at@ >= 0,
            ;
            let on = format_humantime_rfc3339_seconds(secs as u64, nanos);
            let ago = format_relative_activity(at, now);
            (Some(on), Some(ago))
        },
    }
}

impl DiscoveredProjectRecord {
    /// The project with its activity fields rendered as seen from the
    /// current time.
    pub fn into_project(self) -> (out: DiscoveredProject)
        requires
            renderable_activity(self.newest_branch_activity_at),
        ensures
            exists|now: Timestamp| rendered_project(self, now, out),
    {
        let now = Timestamp::now();
        self.into_project_at(now)
    }

    /// The project with its activity fields rendered as seen from `now`.
    pub fn into_project_at(self, now: Timestamp) -> (out: DiscoveredProject)
        requires
            renderable_activity(self.newest_branch_activity_at),
        ensures
            rendered_project(self, now, out),
    {
        let DiscoveredProjectRecord { project, newest_branch_activity_at } = self;
        let mut project = project;
        let (on, ago) = activity_output_fields(newest_branch_activity_at, now);
        project.last_activity_on = on;
        project.last_activity_ago = ago;
        project
    }
}

// ---------------------------------------------------------------------------
// Candidate markers
// ---------------------------------------------------------------------------

/// The text of an optional string slice.
pub open spec fn opt_str_text(s: Option<&str>) -> Option<Seq<char>> {
    match s {
        Some(s) => Some(s@),
        None => None,
    }
}

/// A file name matches `expected` ignoring ASCII case.
pub open spec fn file_name_matches(file_name: Option<Seq<char>>, expected: Seq<char>) -> bool {
    file_name matches Some(name) && eq_ignoring_ascii_case(name, expected)
}

/// Whether `file_name` (the last component of a path, when it is valid
/// Unicode) equals `expected` ignoring ASCII case.
pub fn file_name_equals_ascii(file_name: Option<&str>, expected: &str) -> (out: bool)
    ensures
        out == file_name_matches(opt_str_text(file_name), expected@),
{
    match file_name {
        Some(name) => str_eq_ignore_ascii_case(name, expected),
        None => false,
    }
}

/// A query result is a project marker when it is a directory named `.git`
/// (in any ASCII case).
pub fn is_exact_dot_git_directory(is_dir: bool, file_name: Option<&str>) -> (out: bool)
    ensures
        out == (is_dir && file_name_matches(opt_str_text(file_name), ".git"@)),
{
    is_dir && file_name_equals_ascii(file_name, ".git")
}

/// A query result is a project marker when it is a file named `Cargo.toml`
/// (in any ASCII case).
pub fn is_exact_cargo_toml_file(is_file: bool, file_name: Option<&str>) -> (out: bool)
    ensures
        out == (is_file && file_name_matches(opt_str_text(file_name), "Cargo.toml"@)),
{
    is_file && file_name_equals_ascii(file_name, "Cargo.toml")
}

// ---------------------------------------------------------------------------
// Normalizing gathered values
// ---------------------------------------------------------------------------

/// A value with surrounding whitespace removed, or nothing when no other
/// character remains.
pub open spec fn normalized(value: Seq<char>) -> Option<Seq<char>> {
    if trimmed(value).len() == 0 {
        None
    } else {
        Some(trimmed(value))
    }
}

/// [`normalized`] of an optional value.
pub open spec fn normalized_opt(value: Option<Seq<char>>) -> Option<Seq<char>> {
    match value {
        Some(v) => normalized(v),
        None => None,
    }
}

/// The trimmed value, or `None` when nothing but whitespace remains.
pub fn normalize_non_empty_string(value: &str) -> (out: Option<String>)
    ensures
        opt_text(out) == normalized(value@),
{
    let trimmed_value = trim(value);
    if trimmed_value.as_str().unicode_len() == 0 {
        None
    } else {
        Some(trimmed_value)
    }
}

/// A manifest that failed to parse looks like a template when it holds a
/// `{{` or `}}` placeholder.
pub fn cargo_toml_looks_like_template(contents: &str) -> (out: bool)
    ensures
        out == (contains_text(contents@, "{{"@) || contains_text(contents@, "}}"@)),
{
    str_contains(contents, "{{") || str_contains(contents, "}}")
}

/// `after` holds what `before` holds, and `extra` when there is one.
pub open spec fn adds_one(
    before: Seq<Seq<char>>,
    after: Seq<Seq<char>>,
    extra: Option<Seq<char>>,
) -> bool {
    forall|t: Seq<char>| #[trigger] after.contains(t) <==> before.contains(t) || extra == Some(t)
}

/// Adds the normalized value, if any, to `set`.
fn collect_normalized(value: &str, set: &mut StringSet)
    ensures
        adds_one(old(set)@, final(set)@, normalized(value@)),
{
    if let Some(v) = normalize_non_empty_string(value) {
        set.insert(v);
    }
}

/// Adds the name of the project directory (its last path component, when
/// that is valid Unicode) to the names.
pub fn collect_path_name(file_name: Option<&str>, names: &mut StringSet)
    ensures
        adds_one(old(names)@, final(names)@, normalized_opt(opt_str_text(file_name))),
{
    if let Some(name) = file_name {
        collect_normalized(name, names);
    }
}

/// Adds a `Cargo.toml` package name to the names.
pub fn collect_cargo_name_field(field: Option<&str>, names: &mut StringSet)
    ensures
        adds_one(old(names)@, final(names)@, normalized_opt(opt_str_text(field))),
{
    if let Some(name) = field {
        collect_normalized(name, names);
    }
}

/// What `String::from_utf8_lossy` makes of `bytes`: their UTF-8 text, with
/// U+FFFD in place of each invalid sequence.
pub uninterp spec fn utf8_lossy_text(bytes: Seq<u8>) -> Seq<char>;

/// `String::from_utf8_lossy`: the text is named [`utf8_lossy_text`]; as the
/// documentation says, valid UTF-8 comes back as the text it encodes.
#[verifier::external_body]
fn utf8_lossy(bytes: &[u8]) -> (out: String)
    ensures
        out@ == utf8_lossy_text(bytes@),
        vstd::utf8::valid_utf8(bytes@) ==> out@ == vstd::utf8::decode_utf8(bytes@),
{
    String::from_utf8_lossy(bytes).into_owned()
}

/// The text of the optional bytes of a URL, read as UTF-8 with invalid
/// sequences replaced.
pub open spec fn opt_lossy_text(url: Option<&[u8]>) -> Option<Seq<char>> {
    match url {
        Some(b) => Some(utf8_lossy_text(b@)),
        None => None,
    }
}

/// Adds the URL of a git remote, given as the bytes git stores, to the
/// outlinks.
pub fn collect_git_remote_url(url: Option<&[u8]>, outlinks: &mut StringSet)
    ensures
        adds_one(old(outlinks)@, final(outlinks)@, normalized_opt(opt_lossy_text(url))),
        url matches Some(b) ==> (vstd::utf8::valid_utf8(b@) ==> adds_one(
            old(outlinks)@,
            final(outlinks)@,
            normalized_opt(Some(vstd::utf8::decode_utf8(b@))),
        )),
{
    if let Some(url) = url {
        let text = utf8_lossy(url);
        collect_normalized(text.as_str(), outlinks);
    }
}

// ---------------------------------------------------------------------------
// Cargo manifests
// ---------------------------------------------------------------------------

/// `{ workspace = true }`: a value inherited from the workspace.
#[derive(Debug, Clone, PartialEq, Eq)]
pub struct WorkspaceField {
    pub workspace: bool,
}

/// A string field of `[package]`, given or inherited from the workspace.
#[derive(Debug, Clone, PartialEq, Eq)]
pub enum CargoStringField {
    Value(String),
    Workspace(WorkspaceField),
}

/// A list field of `[package]`, given or inherited from the workspace.
#[derive(Debug, Clone, PartialEq, Eq)]
pub enum CargoStringListField {
    Value(Vec<String>),
    Workspace(WorkspaceField),
}

/// The part of `[package]` that discovery reads.
#[derive(Debug, Clone, PartialEq, Eq, Default)]
pub struct CargoPackage {
    pub name: Option<String>,
    pub repository: Option<CargoStringField>,
    pub homepage: Option<CargoStringField>,
    pub documentation: Option<CargoStringField>,
    pub authors: Option<CargoStringListField>,
}

/// The part of a `Cargo.toml` that discovery reads.
#[derive(Debug, Clone, PartialEq, Eq, Default)]
pub struct CargoManifest {
    pub package: Option<CargoPackage>,
}

impl CargoStringField {
    /// The value, unless it is inherited from the workspace.
    pub fn into_owned(self) -> (out: Option<String>)
        ensures
            out == match self {
                CargoStringField::Value(v) => Some(v),
                CargoStringField::Workspace(_) => None::<String>,
            },
    {
        match self {
            CargoStringField::Value(value) => Some(value),
            CargoStringField::Workspace(_) => None,
        }
    }
}

impl CargoStringListField {
    /// The values, unless they are inherited from the workspace.
    pub fn into_owned(self) -> (out: Option<Vec<String>>)
        ensures
            out == match self {
                CargoStringListField::Value(v) => Some(v),
                CargoStringListField::Workspace(_) => None::<Vec<String>>,
            },
    {
        match self {
            CargoStringListField::Value(values) => Some(values),
            CargoStringListField::Workspace(_) => None,
        }
    }
}

/// The normalized value of a link field, when it is given.
pub open spec fn link_value(field: Option<CargoStringField>) -> Option<Seq<char>> {
    match field {
        Some(CargoStringField::Value(v)) => normalized(v@),
        _ => None,
    }
}

/// Adds the value of a link field (`repository`, `homepage`,
/// `documentation`), unless it is inherited from the workspace.
pub fn collect_cargo_link_field(field: Option<CargoStringField>, outlinks: &mut StringSet)
    ensures
        adds_one(old(outlinks)@, final(outlinks)@, link_value(field)),
{
    if let Some(field) = field {
        if let Some(link) = field.into_owned() {
            collect_normalized(link.as_str(), outlinks);
        }
    }
}

/// `t` is the normalized form of one of the `authors`.
pub open spec fn is_listed_author(authors: Seq<String>, t: Seq<char>) -> bool {
    exists|i: int| 0 <= i < authors.len() && normalized(authors[i]@) == Some(t)
}

/// The authors a list field contributes.
pub open spec fn listed_author(field: Option<CargoStringListField>, t: Seq<char>) -> bool {
    match field {
        Some(CargoStringListField::Value(list)) => is_listed_author(list@, t),
        _ => false,
    }
}

proof fn lemma_listed_author_step(list: Seq<String>, i: int)
    requires
        0 <= i < list.len(),
    ensures
        forall|t: Seq<char>| #[trigger] is_listed_author(list.take(i + 1), t) <==> is_listed_author(
            list.take(i),
            t,
        ) || normalized(list[i]@) == Some(t),
{
    let a = list.take(i + 1);
    let b = list.take(i);
    assert forall|t: Seq<char>| #[trigger] is_listed_author(a, t) <==> is_listed_author(b, t)
        || normalized(list[i]@) == Some(t) by {
        if is_listed_author(a, t) {
            let k = choose|k: int| 0 <= k < a.len() && normalized(#[trigger] a[k]@) == Some(t);
            if k < i {
                assert(b[k] == a[k]);
            }
        }
        if is_listed_author(b, t) {
            let k = choose|k: int| 0 <= k < b.len() && normalized(#[trigger] b[k]@) == Some(t);
            assert(a[k] == b[k]);
        }
        if normalized(list[i]@) == Some(t) {
            assert(a[i] == list[i]);
        }
    }
}

/// Adds the normalized values of an author list, unless it is inherited
/// from the workspace.
pub fn collect_cargo_authors_field(field: Option<CargoStringListField>, authors: &mut StringSet)
    ensures
        forall|t: Seq<char>| #[trigger] final(authors)@.contains(t) <==> old(authors)@.contains(t)
            || listed_author(field, t),
{
    let ghost given = field;
    if let Some(field) = field {
        if let Some(list) = field.into_owned() {
            let mut i: usize = 0;
            while i < list.len()
                invariant
                    i <= list.len(),
                    given == Some(CargoStringListField::Value(list)),
                    forall|t: Seq<char>| #[trigger] authors@.contains(t) <==> old(authors)@.contains(t)
                        || is_listed_author(list@.take(i as int), t),
                decreases list.len() - i,
            {
                collect_normalized(list[i].as_str(), authors);
                proof {
                    lemma_listed_author_step(list@, i as int);
                }
                i = i + 1;
            }
            assert(list@.take(list.len() as int) =~= list@);
        }
    }
}

// ---------------------------------------------------------------------------
// Partial projects
// ---------------------------------------------------------------------------

/// What enrichment gathered for one marker of a project directory.
#[derive(Debug)]
pub struct PartialProject {
    pub path_on_disk: String,
    pub names: StringSet,
    pub outlinks: StringSet,
    pub authors: StringSet,
    pub newest_branch_activity_at: Option<Timestamp>,
}

impl PartialProject {
    /// A partial project for `path_on_disk` with nothing gathered yet.
    pub fn at_path(path_on_disk: String) -> (out: PartialProject)
        ensures
            out.path_on_disk == path_on_disk,
            out.names@ == Seq::<Seq<char>>::empty(),
            out.outlinks@ == Seq::<Seq<char>>::empty(),
            out.authors@ == Seq::<Seq<char>>::empty(),
            out.newest_branch_activity_at is None,
    {
        PartialProject {
            path_on_disk,
            names: StringSet::new(),
            outlinks: StringSet::new(),
            authors: StringSet::new(),
            newest_branch_activity_at: None,
        }
    }
}

impl Default for PartialProject {
    fn default() -> (out: Self)
        ensures
            out.path_on_disk@ == Seq::<char>::empty(),
            out.names@ == Seq::<Seq<char>>::empty(),
            out.outlinks@ == Seq::<Seq<char>>::empty(),
            out.authors@ == Seq::<Seq<char>>::empty(),
            out.newest_branch_activity_at is None,
    {
        PartialProject::at_path(String::new())
    }
}

/// Gathers from a parsed `Cargo.toml` the package name, the links
/// (`repository`, `homepage`, `documentation`) and the authors into
/// `project`; values inherited from the workspace are skipped.
pub fn collect_cargo_manifest(manifest: CargoManifest, project: &mut PartialProject)
    ensures
        final(project).path_on_disk == old(project).path_on_disk,
        final(project).newest_branch_activity_at == old(project).newest_branch_activity_at,
        manifest.package is None ==> final(project).names@ == old(project).names@
            && final(project).outlinks@ == old(project).outlinks@ && final(project).authors@ == old(
            project,
        ).authors@,
        manifest.package matches Some(package) ==> {
            &&& adds_one(
                old(project).names@,
                final(project).names@,
                normalized_opt(opt_text(package.name)),
            )
            &&& forall|t: Seq<char>| #[trigger] final(project).outlinks@.contains(t) <==> {
                ||| old(project).outlinks@.contains(t)
                ||| link_value(package.repository) == Some(t)
                ||| link_value(package.homepage) == Some(t)
                ||| link_value(package.documentation) == Some(t)
            }
            &&& forall|t: Seq<char>| #[trigger] final(project).authors@.contains(t) <==> old(
                project,
            ).authors@.contains(t) || listed_author(package.authors, t)
        },
{
    if let Some(package) = manifest.package {
        let CargoPackage { name, repository, homepage, documentation, authors } = package;
        match &name {
            Some(n) => collect_cargo_name_field(Some(n.as_str()), &mut project.names),
            None => collect_cargo_name_field(None, &mut project.names),
        }
        collect_cargo_link_field(repository, &mut project.outlinks);
        collect_cargo_link_field(homepage, &mut project.outlinks);
        collect_cargo_link_field(documentation, &mut project.outlinks);
        collect_cargo_authors_field(authors, &mut project.authors);
    }
}

// ---------------------------------------------------------------------------
// Git signatures
// ---------------------------------------------------------------------------

/// `std::str::from_utf8`: the text that `bytes` encode when they are valid
/// UTF-8, as vstd's model of UTF-8 decodes them.
#[verifier::external_body]
fn utf8_text(bytes: &[u8]) -> (out: Option<&str>)
    ensures
        out is Some <==> vstd::utf8::valid_utf8(bytes@),
        out matches Some(text) ==> text@ == vstd::utf8::decode_utf8(bytes@),
{
    match std::str::from_utf8(bytes) {
        Ok(text) => Some(text),
        Err(_) => None,
    }
}

/// A part of a git signature as text, when its bytes are valid UTF-8.
pub fn bstr_to_utf8(value: &[u8]) -> (out: Option<&str>)
    ensures
        out is Some <==> vstd::utf8::valid_utf8(value@),
        out matches Some(text) ==> text@ == vstd::utf8::decode_utf8(value@),
{
    utf8_text(value)
}

/// How git shows an identity: `Name <email>`, or whichever part is known.
pub open spec fn signature_text(name: Option<Seq<char>>, email: Option<Seq<char>>) -> Option<
    Seq<char>,
> {
    match (normalized_opt(name), normalized_opt(email)) {
        (Some(n), Some(e)) => Some(n + " <"@ + e + ">"@),
        (Some(n), None) => Some(n),
        (None, Some(e)) => Some("<"@ + e + ">"@),
        (None, None) => None,
    }
}

/// Formats an author like git does, from the parts of the signature that
/// are valid Unicode and not blank.
pub fn format_signature(name: Option<&str>, email: Option<&str>) -> (out: Option<String>)
    ensures
        opt_text(out) == signature_text(opt_str_text(name), opt_str_text(email)),
{
    let name = match name {
        Some(n) => normalize_non_empty_string(n),
        None => None,
    };
    let email = match email {
        Some(e) => normalize_non_empty_string(e),
        None => None,
    };
    match (name, email) {
        (Some(name), Some(email)) => {
            let mut out = name;
            out.append(" <");
            out.append(email.as_str());
            out.append(">");
            Some(out)
        },
        (Some(name), None) => Some(name),
        (None, Some(email)) => {
            let mut out = String::from_str("<");
            out.append(email.as_str());
            out.append(">");
            Some(out)
        },
        (None, None) => None,
    }
}

// ---------------------------------------------------------------------------
// Merging partial projects by directory
// ---------------------------------------------------------------------------

/// The key under which paths are merged: the path itself, or its ASCII
/// lowercase form where paths are case-insensitive (Windows).
pub open spec fn project_key_text(path: Seq<char>, case_insensitive: bool) -> Seq<char> {
    if case_insensitive {
        path.map_values(|c: char| crate::text::ascii_lower(c))
    } else {
        path
    }
}

/// The key under which `path` is merged with other discoveries of the same
/// directory.
pub fn project_key(path: &str, case_insensitive: bool) -> (out: String)
    ensures
        out@ == project_key_text(path@, case_insensitive),
{
    if case_insensitive {
        crate::text::str_to_ascii_lowercase(path)
    } else {
        String::from_str(path)
    }
}

/// Where paths are case-insensitive, two paths that differ only in ASCII
/// case have the same key; elsewhere the key is the path itself.
pub proof fn lemma_project_key_ignores_ascii_case(a: Seq<char>, b: Seq<char>)
    ensures
        eq_ignoring_ascii_case(a, b) ==> project_key_text(a, true) == project_key_text(b, true),
        project_key_text(a, false) == a,
{
}

/// Where paths are case-insensitive, the key of a path is the whole path
/// with ASCII letters lowercased: it has the path's length, each character
/// is the path's character lowercased, and two paths share a key exactly
/// when they agree character by character ignoring ASCII case. Paths that
/// differ elsewhere (say, in a directory before their last component) never
/// share a key.
pub proof fn lemma_project_key_is_the_whole_path(a: Seq<char>, b: Seq<char>)
    ensures
        project_key_text(a, true).len() == a.len(),
        forall|i: int|
            0 <= i < a.len() ==> #[trigger] project_key_text(a, true)[i] == crate::text::ascii_lower(a[i]),
        project_key_text(a, true) == project_key_text(b, true) <==> (a.len() == b.len() && forall|i: int|
            0 <= i < a.len() ==> crate::text::ascii_lower(#[trigger] a[i]) == crate::text::ascii_lower(b[i])),
        project_key_text(a, false) == project_key_text(b, false) <==> a == b,
{
    let ka = project_key_text(a, true);
    let kb = project_key_text(b, true);
    if a.len() == b.len() && forall|i: int|
        0 <= i < a.len() ==> crate::text::ascii_lower(#[trigger] a[i]) == crate::text::ascii_lower(b[i]) {
        assert(ka =~= kb);
    }
    assert(ka.len() == a.len() && kb.len() == b.len());
    if ka == kb {
        assert forall|i: int| 0 <= i < a.len() implies crate::text::ascii_lower(#[trigger] a[i])
            == crate::text::ascii_lower(b[i]) by {
            assert(ka[i] == crate::text::ascii_lower(a[i]));
            assert(kb[i] == crate::text::ascii_lower(b[i]));
        }
    }
}

/// The merge key of a partial project.
pub open spec fn key_of(p: PartialProject, ci: bool) -> Seq<char> {
    project_key_text(p.path_on_disk@, ci)
}

/// `ps[i]` belongs to the group of `key`.
pub open spec fn in_group(ps: Seq<PartialProject>, key: Seq<char>, ci: bool, i: int) -> bool {
    0 <= i < ps.len() && key_of(ps[i], ci) == key
}

/// Some member of the group of `key` gathered the name `t`.
pub open spec fn group_name(ps: Seq<PartialProject>, key: Seq<char>, ci: bool, t: Seq<char>) -> bool {
    exists|i: int| in_group(ps, key, ci, i) && (#[trigger] ps[i]).names@.contains(t)
}

/// Some member of the group of `key` gathered the outlink `t`.
pub open spec fn group_outlink(ps: Seq<PartialProject>, key: Seq<char>, ci: bool, t: Seq<char>) -> bool {
    exists|i: int| in_group(ps, key, ci, i) && (#[trigger] ps[i]).outlinks@.contains(t)
}

/// Some member of the group of `key` gathered the author `t`.
pub open spec fn group_author(ps: Seq<PartialProject>, key: Seq<char>, ci: bool, t: Seq<char>) -> bool {
    exists|i: int| in_group(ps, key, ci, i) && (#[trigger] ps[i]).authors@.contains(t)
}

/// `ps[i]` is the first member of the group of `key`.
pub open spec fn first_of_group(ps: Seq<PartialProject>, key: Seq<char>, ci: bool, i: int) -> bool {
    &&& in_group(ps, key, ci, i)
    &&& forall|k: int| 0 <= k < i ==> key_of(#[trigger] ps[k], ci) != key
}

/// The later of two optional times (an absent time loses).
pub open spec fn newer(a: Option<int>, b: Option<int>) -> Option<int> {
    match (a, b) {
        (Some(x), Some(y)) => Some(if x >= y {
            x
        } else {
            y
        }),
        (Some(x), None) => Some(x),
        (None, y) => y,
    }
}

/// The newest branch activity of the group of `key`.
pub open spec fn group_newest(ps: Seq<PartialProject>, key: Seq<char>, ci: bool) -> Option<int>
    decreases ps.len(),
{
    if ps.len() == 0 {
        None
    } else {
        let rest = group_newest(ps.drop_last(), key, ci);
        if key_of(ps.last(), ci) == key {
            newer(rest, opt_instant(ps.last().newest_branch_activity_at))
        } else {
            rest
        }
    }
}

/// A project passes the activity cutoff when there is none, or when its
/// newest activity is known and newer than the cutoff.
pub open spec fn passes_cutoff(newest: Option<int>, cutoff: Option<Timestamp>) -> bool {
    match cutoff {
        None => true,
        Some(c) => newest matches Some(n) && n > c@,
    }
}

/// The merge key of a record.
pub open spec fn record_key(r: DiscoveredProjectRecord, ci: bool) -> Seq<char> {
    project_key_text(r.project.path_on_disk@, ci)
}

/// `r` is the merged record of its group among `ps`: it carries the path of
/// the group's first member, every name, outlink and author that a member
/// gathered (sorted, without duplicates), the group's newest activity, and
/// no rendered activity fields yet.
pub open spec fn merged_record(ps: Seq<PartialProject>, ci: bool, r: DiscoveredProjectRecord) -> bool {
    let key = record_key(r, ci);
    &&& exists|i: int| first_of_group(ps, key, ci, i) && ps[i].path_on_disk == r.project.path_on_disk
    &&& strictly_sorted(texts(r.project.names@))
    &&& strictly_sorted(texts(r.project.outlinks@))
    &&& strictly_sorted(texts(r.project.authors@))
    &&& forall|t: Seq<char>| #[trigger] texts(r.project.names@).contains(t) <==> group_name(ps, key, ci, t)
    &&& forall|t: Seq<char>| #[trigger] texts(r.project.outlinks@).contains(t) <==> group_outlink(ps, key, ci, t)
    &&& forall|t: Seq<char>| #[trigger] texts(r.project.authors@).contains(t) <==> group_author(ps, key, ci, t)
    &&& opt_instant(r.newest_branch_activity_at) == group_newest(ps, key, ci)
    &&& r.project.last_activity_on is None
    &&& r.project.last_activity_ago is None
}

/// The merge keys of the records.
pub open spec fn record_keys(rs: Seq<DiscoveredProjectRecord>, ci: bool) -> Seq<Seq<char>> {
    rs.map_values(|r: DiscoveredProjectRecord| record_key(r, ci))
}

/// Records in strictly ascending order of key never share a key: merging
/// leaves one record per project directory.
pub proof fn lemma_merged_records_have_distinct_keys(rs: Seq<DiscoveredProjectRecord>, ci: bool)
    requires
        strictly_sorted(record_keys(rs, ci)),
    ensures
        forall|a: int, b: int|
            0 <= a < rs.len() && 0 <= b < rs.len() && a != b ==> record_key(#[trigger] rs[a], ci)
                != record_key(#[trigger] rs[b], ci),
{
    assert forall|a: int, b: int|
        0 <= a < rs.len() && 0 <= b < rs.len() && a != b implies record_key(#[trigger] rs[a], ci)
        != record_key(#[trigger] rs[b], ci) by {
        let ks = record_keys(rs, ci);
        crate::text::lemma_text_lt_irreflexive(ks[a]);
        if a < b {
            assert(crate::text::text_lt(ks[a], ks[b]));
        } else {
            assert(crate::text::text_lt(ks[b], ks[a]));
        }
    }
}

proof fn lemma_group_step(ps: Seq<PartialProject>, i: int, key: Seq<char>, ci: bool)
    requires
        0 <= i < ps.len(),
    ensures
        forall|t: Seq<char>| #[trigger] group_name(ps.take(i + 1), key, ci, t) <==> group_name(
            ps.take(i),
            key,
            ci,
            t,
        ) || (key_of(ps[i], ci) == key && ps[i].names@.contains(t)),
        forall|t: Seq<char>| #[trigger] group_outlink(ps.take(i + 1), key, ci, t) <==> group_outlink(
            ps.take(i),
            key,
            ci,
            t,
        ) || (key_of(ps[i], ci) == key && ps[i].outlinks@.contains(t)),
        forall|t: Seq<char>| #[trigger] group_author(ps.take(i + 1), key, ci, t) <==> group_author(
            ps.take(i),
            key,
            ci,
            t,
        ) || (key_of(ps[i], ci) == key && ps[i].authors@.contains(t)),
        group_newest(ps.take(i + 1), key, ci) == if key_of(ps[i], ci) == key {
            newer(group_newest(ps.take(i), key, ci), opt_instant(ps[i].newest_branch_activity_at))
        } else {
            group_newest(ps.take(i), key, ci)
        },
        forall|k: int| first_of_group(ps.take(i), key, ci, k) ==> first_of_group(
            ps.take(i + 1),
            key,
            ci,
            k,
        ),
        key_of(ps[i], ci) == key && (forall|k: int|
            0 <= k < i ==> key_of(#[trigger] ps[k], ci) != key) ==> first_of_group(
            ps.take(i + 1),
            key,
            ci,
            i,
        ),
{
    let a = ps.take(i + 1);
    let b = ps.take(i);
    assert(a.drop_last() =~= b);
    assert forall|t: Seq<char>| #[trigger] group_name(a, key, ci, t) <==> group_name(b, key, ci, t)
        || (key_of(ps[i], ci) == key && ps[i].names@.contains(t)) by {
        if group_name(a, key, ci, t) {
            let k = choose|k: int| in_group(a, key, ci, k) && (#[trigger] a[k]).names@.contains(t);
            if k < i {
                assert(b[k] == a[k]);
            }
        }
        if group_name(b, key, ci, t) {
            let k = choose|k: int| in_group(b, key, ci, k) && (#[trigger] b[k]).names@.contains(t);
            assert(a[k] == b[k]);
        }
        if key_of(ps[i], ci) == key && ps[i].names@.contains(t) {
            assert(a[i] == ps[i]);
        }
    }
    assert forall|t: Seq<char>| #[trigger] group_outlink(a, key, ci, t) <==> group_outlink(b, key, ci, t)
        || (key_of(ps[i], ci) == key && ps[i].outlinks@.contains(t)) by {
        if group_outlink(a, key, ci, t) {
            let k = choose|k: int| in_group(a, key, ci, k) && (#[trigger] a[k]).outlinks@.contains(t);
            if k < i {
                assert(b[k] == a[k]);
            }
        }
        if group_outlink(b, key, ci, t) {
            let k = choose|k: int| in_group(b, key, ci, k) && (#[trigger] b[k]).outlinks@.contains(t);
            assert(a[k] == b[k]);
        }
        if key_of(ps[i], ci) == key && ps[i].outlinks@.contains(t) {
            assert(a[i] == ps[i]);
        }
    }
    assert forall|t: Seq<char>| #[trigger] group_author(a, key, ci, t) <==> group_author(b, key, ci, t)
        || (key_of(ps[i], ci) == key && ps[i].authors@.contains(t)) by {
        if group_author(a, key, ci, t) {
            let k = choose|k: int| in_group(a, key, ci, k) && (#[trigger] a[k]).authors@.contains(t);
            if k < i {
                assert(b[k] == a[k]);
            }
        }
        if group_author(b, key, ci, t) {
            let k = choose|k: int| in_group(b, key, ci, k) && (#[trigger] b[k]).authors@.contains(t);
            assert(a[k] == b[k]);
        }
        if key_of(ps[i], ci) == key && ps[i].authors@.contains(t) {
            assert(a[i] == ps[i]);
        }
    }
    assert forall|k: int| first_of_group(b, key, ci, k) implies first_of_group(a, key, ci, k) by {
        assert(a[k] == b[k]);
        assert forall|m: int| 0 <= m < k implies key_of(#[trigger] a[m], ci) != key by {
            assert(a[m] == b[m]);
        }
    }
    if key_of(ps[i], ci) == key && (forall|k: int| 0 <= k < i ==> key_of(#[trigger] ps[k], ci) != key) {
        assert forall|m: int| 0 <= m < i implies key_of(#[trigger] a[m], ci) != key by {
            assert(a[m] == ps[m]);
        }
    }
}

/// A group without members has no activity.
proof fn lemma_empty_group(ps: Seq<PartialProject>, key: Seq<char>, ci: bool)
    requires
        forall|k: int| 0 <= k < ps.len() ==> key_of(#[trigger] ps[k], ci) != key,
    ensures
        group_newest(ps, key, ci) is None,
        forall|t: Seq<char>| !group_name(ps, key, ci, t),
        forall|t: Seq<char>| !group_outlink(ps, key, ci, t),
        forall|t: Seq<char>| !group_author(ps, key, ci, t),
    decreases ps.len(),
{
    if ps.len() > 0 {
        let d = ps.drop_last();
        assert forall|k: int| 0 <= k < d.len() implies key_of(#[trigger] d[k], ci) != key by {
            assert(d[k] == ps[k]);
        }
        lemma_empty_group(d, key, ci);
        assert(key_of(ps[ps.len() - 1], ci) != key);
    }
}

/// Merges into `entry` what `partial` gathered: the union of names,
/// outlinks and authors, and the newer of the two activities.
fn absorb_partial(entry: &mut PartialProject, partial: PartialProject)
    ensures
        final(entry).path_on_disk == old(entry).path_on_disk,
        forall|t: Seq<char>| #[trigger] final(entry).names@.contains(t) <==> old(entry).names@.contains(t)
            || partial.names@.contains(t),
        forall|t: Seq<char>| #[trigger] final(entry).outlinks@.contains(t) <==> old(entry).outlinks@.contains(t)
            || partial.outlinks@.contains(t),
        forall|t: Seq<char>| #[trigger] final(entry).authors@.contains(t) <==> old(entry).authors@.contains(t)
            || partial.authors@.contains(t),
        opt_instant(final(entry).newest_branch_activity_at) == newer(
            opt_instant(old(entry).newest_branch_activity_at),
            opt_instant(partial.newest_branch_activity_at),
        ),
{
    let PartialProject { path_on_disk: _, names, outlinks, authors, newest_branch_activity_at } =
        partial;
    entry.names.extend(names);
    entry.outlinks.extend(outlinks);
    entry.authors.extend(authors);
    entry.newest_branch_activity_at = match (entry.newest_branch_activity_at, newest_branch_activity_at) {
        (Some(left), Some(right)) => Some(left.later_of(right)),
        (Some(value), None) => Some(value),
        (None, Some(value)) => Some(value),
        (None, None) => None,
    };
}

/// The invariant of the merge loop over the first `i` partials: `entries`
/// hold one merged entry per group, in ascending order of `keys`.
pub open spec fn merge_state(
    ps: Seq<PartialProject>,
    i: int,
    ci: bool,
    keys: Seq<Seq<char>>,
    entries: Seq<PartialProject>,
    firsts: Seq<int>,
) -> bool {
    let prefix = ps.take(i);
    &&& 0 <= i <= ps.len()
    &&& keys.len() == entries.len()
    &&& firsts.len() == keys.len()
    &&& strictly_sorted(keys)
    &&& forall|j: int| 0 <= j < keys.len() ==> #[trigger] keys[j] == key_of(entries[j], ci)
    &&& forall|j: int|
        0 <= j < keys.len() ==> first_of_group(prefix, keys[j], ci, #[trigger] firsts[j])
            && ps[firsts[j]].path_on_disk == entries[j].path_on_disk
    &&& forall|j: int, t: Seq<char>|
        #![trigger entries[j].names@.contains(t)]
        #![trigger group_name(prefix, keys[j], ci, t)]
        0 <= j < keys.len() ==> (entries[j].names@.contains(t) <==> group_name(prefix, keys[j], ci, t))
    &&& forall|j: int, t: Seq<char>|
        #![trigger entries[j].outlinks@.contains(t)]
        #![trigger group_outlink(prefix, keys[j], ci, t)]
        0 <= j < keys.len() ==> (entries[j].outlinks@.contains(t) <==> group_outlink(prefix, keys[j], ci, t))
    &&& forall|j: int, t: Seq<char>|
        #![trigger entries[j].authors@.contains(t)]
        #![trigger group_author(prefix, keys[j], ci, t)]
        0 <= j < keys.len() ==> (entries[j].authors@.contains(t) <==> group_author(prefix, keys[j], ci, t))
    &&& forall|j: int|
        0 <= j < keys.len() ==> opt_instant((#[trigger] entries[j]).newest_branch_activity_at)
            == group_newest(prefix, keys[j], ci)
    &&& forall|k: int| 0 <= k < i ==> #[trigger] keys.contains(key_of(ps[k], ci))
}

proof fn lemma_merge_into_existing(
    ps: Seq<PartialProject>,
    i: int,
    ci: bool,
    keys: Seq<Seq<char>>,
    entries: Seq<PartialProject>,
    firsts: Seq<int>,
    at: int,
    merged: PartialProject,
)
    requires
        merge_state(ps, i, ci, keys, entries, firsts),
        i < ps.len(),
        0 <= at < keys.len(),
        keys[at] == key_of(ps[i], ci),
        merged.path_on_disk == entries[at].path_on_disk,
        forall|t: Seq<char>| #[trigger] merged.names@.contains(t) <==> entries[at].names@.contains(t)
            || ps[i].names@.contains(t),
        forall|t: Seq<char>| #[trigger] merged.outlinks@.contains(t) <==> entries[at].outlinks@.contains(t)
            || ps[i].outlinks@.contains(t),
        forall|t: Seq<char>| #[trigger] merged.authors@.contains(t) <==> entries[at].authors@.contains(t)
            || ps[i].authors@.contains(t),
        opt_instant(merged.newest_branch_activity_at) == newer(
            opt_instant(entries[at].newest_branch_activity_at),
            opt_instant(ps[i].newest_branch_activity_at),
        ),
    ensures
        merge_state(ps, i + 1, ci, keys, entries.update(at, merged), firsts),
{
    let e2 = entries.update(at, merged);
    let before = ps.take(i);
    let after = ps.take(i + 1);
    assert forall|j: int| 0 <= j < keys.len() implies #[trigger] keys[j] == key_of(e2[j], ci) by {}
    assert forall|j: int| 0 <= j < keys.len() && j != at implies keys[j] != keys[at] by {
        crate::text::lemma_text_lt_irreflexive(keys[at]);
        if j < at {
            assert(crate::text::text_lt(keys[j], keys[at]));
        } else {
            assert(crate::text::text_lt(keys[at], keys[j]));
        }
    }
    assert forall|j: int|
        0 <= j < keys.len() implies first_of_group(after, keys[j], ci, #[trigger] firsts[j])
            && ps[firsts[j]].path_on_disk == e2[j].path_on_disk by {
        lemma_group_step(ps, i, keys[j], ci);
    }
    assert forall|j: int, t: Seq<char>|
        0 <= j < keys.len() implies (e2[j].names@.contains(t) <==> group_name(after, keys[j], ci, t))
        && (e2[j].outlinks@.contains(t) <==> group_outlink(after, keys[j], ci, t))
        && (e2[j].authors@.contains(t) <==> group_author(after, keys[j], ci, t)) by {
        lemma_group_step(ps, i, keys[j], ci);
        assert(entries[j].names@.contains(t) <==> group_name(before, keys[j], ci, t));
        assert(entries[j].outlinks@.contains(t) <==> group_outlink(before, keys[j], ci, t));
        assert(entries[j].authors@.contains(t) <==> group_author(before, keys[j], ci, t));
    }
    assert forall|j: int|
        0 <= j < keys.len() implies opt_instant((#[trigger] e2[j]).newest_branch_activity_at)
        == group_newest(after, keys[j], ci) by {
        lemma_group_step(ps, i, keys[j], ci);
    }
    assert forall|k: int| 0 <= k < i + 1 implies #[trigger] keys.contains(key_of(ps[k], ci)) by {
        if k == i {
            assert(keys[at] == key_of(ps[k], ci));
        }
    }
}

proof fn lemma_merge_new_group(
    ps: Seq<PartialProject>,
    i: int,
    ci: bool,
    keys: Seq<Seq<char>>,
    entries: Seq<PartialProject>,
    firsts: Seq<int>,
    at: int,
)
    requires
        merge_state(ps, i, ci, keys, entries, firsts),
        i < ps.len(),
        0 <= at <= keys.len(),
        forall|m: int| 0 <= m < at ==> crate::text::text_lt(#[trigger] keys[m], key_of(ps[i], ci)),
        forall|m: int| at <= m < keys.len() ==> crate::text::text_lt(key_of(ps[i], ci), #[trigger] keys[m]),
    ensures
        merge_state(
            ps,
            i + 1,
            ci,
            keys.insert(at, key_of(ps[i], ci)),
            entries.insert(at, ps[i]),
            firsts.insert(at, i),
        ),
{
    let key = key_of(ps[i], ci);
    let k2 = keys.insert(at, key);
    let e2 = entries.insert(at, ps[i]);
    let f2 = firsts.insert(at, i);
    let before = ps.take(i);
    let after = ps.take(i + 1);
    crate::string_set::lemma_not_found(keys, key, at);
    assert forall|k: int| 0 <= k < i implies key_of(#[trigger] ps[k], ci) != key by {
        assert(keys.contains(key_of(ps[k], ci)));
    }
    assert forall|k: int| 0 <= k < before.len() implies key_of(#[trigger] before[k], ci) != key by {
        assert(before[k] == ps[k]);
    }
    lemma_empty_group(before, key, ci);
    lemma_group_step(ps, i, key, ci);
    assert forall|a: int, b: int| 0 <= a < b < k2.len() implies crate::text::text_lt(
        #[trigger] k2[a],
        #[trigger] k2[b],
    ) by {
        if b < at {
        } else if b == at {
        } else if a < at {
            assert(crate::text::text_lt(keys[a], keys[b - 1]));
        } else if a == at {
        } else {
            assert(crate::text::text_lt(keys[a - 1], keys[b - 1]));
        }
    }
    assert forall|j: int| 0 <= j < k2.len() implies #[trigger] k2[j] == key_of(e2[j], ci) by {
        if j < at {
        } else if j > at {
            assert(k2[j] == keys[j - 1]);
            assert(e2[j] == entries[j - 1]);
        }
    }
    assert forall|j: int|
        0 <= j < k2.len() implies first_of_group(after, k2[j], ci, #[trigger] f2[j])
            && ps[f2[j]].path_on_disk == e2[j].path_on_disk by {
        if j == at {
            assert(first_of_group(after, key, ci, i));
        } else {
            let jj = if j < at {
                j
            } else {
                j - 1
            };
            assert(k2[j] == keys[jj]);
            assert(e2[j] == entries[jj]);
            assert(f2[j] == firsts[jj]);
            lemma_group_step(ps, i, keys[jj], ci);
            assert(first_of_group(before, keys[jj], ci, firsts[jj]));
        }
    }
    assert forall|j: int, t: Seq<char>|
        0 <= j < k2.len() implies (e2[j].names@.contains(t) <==> group_name(after, k2[j], ci, t))
        && (e2[j].outlinks@.contains(t) <==> group_outlink(after, k2[j], ci, t))
        && (e2[j].authors@.contains(t) <==> group_author(after, k2[j], ci, t)) by {
        if j != at {
            let jj = if j < at {
                j
            } else {
                j - 1
            };
            assert(k2[j] == keys[jj]);
            assert(e2[j] == entries[jj]);
            assert(keys[jj] != key);
            lemma_group_step(ps, i, keys[jj], ci);
            assert(entries[jj].names@.contains(t) <==> group_name(before, keys[jj], ci, t));
            assert(entries[jj].outlinks@.contains(t) <==> group_outlink(before, keys[jj], ci, t));
            assert(entries[jj].authors@.contains(t) <==> group_author(before, keys[jj], ci, t));
        }
    }
    assert forall|j: int|
        0 <= j < k2.len() implies opt_instant((#[trigger] e2[j]).newest_branch_activity_at)
        == group_newest(after, k2[j], ci) by {
        if j != at {
            let jj = if j < at {
                j
            } else {
                j - 1
            };
            assert(k2[j] == keys[jj]);
            assert(e2[j] == entries[jj]);
            assert(keys[jj] != key);
            lemma_group_step(ps, i, keys[jj], ci);
        }
    }
    assert forall|k: int| 0 <= k < i + 1 implies #[trigger] k2.contains(key_of(ps[k], ci)) by {
        if k == i {
            assert(k2[at] == key);
        } else {
            assert(keys.contains(key_of(ps[k], ci)));
            let m = choose|m: int| 0 <= m < keys.len() && keys[m] == key_of(ps[k], ci);
            if m < at {
                assert(k2[m] == keys[m]);
            } else {
                assert(k2[m + 1] == keys[m]);
            }
        }
    }
}

/// `out` is what merging `ps` gives: one merged record per directory whose
/// group passes the cutoff, for every such directory, in strictly ascending
/// order of key.
pub open spec fn merge_outcome(
    ps: Seq<PartialProject>,
    activity_cutoff: Option<Timestamp>,
    ci: bool,
    out: Seq<DiscoveredProjectRecord>,
) -> bool {
    &&& forall|j: int|
        0 <= j < out.len() ==> merged_record(ps, ci, #[trigger] out[j]) && passes_cutoff(
            opt_instant(out[j].newest_branch_activity_at),
            activity_cutoff,
        )
    &&& forall|i: int|
        0 <= i < ps.len() && passes_cutoff(group_newest(ps, key_of(ps[i], ci), ci), activity_cutoff)
            ==> #[trigger] record_keys(out, ci).contains(key_of(ps[i], ci))
    &&& strictly_sorted(record_keys(out, ci))
}

/// Merges what enrichment gathered for the same project directory (by the
/// key of [`project_key`]) into one record per directory, in ascending order
/// of key. Each record carries the path of the first partial of its
/// directory, the union of the names, outlinks and authors (sorted, without
/// duplicates) and the newest branch activity. With an activity cutoff, only
/// directories whose newest activity is known and newer than the cutoff
/// are kept.
pub fn merge_partials(
    partials: Vec<PartialProject>,
    activity_cutoff: Option<Timestamp>,
    case_insensitive_paths: bool,
) -> (out: Vec<DiscoveredProjectRecord>)
    ensures
        forall|j: int|
            0 <= j < out.len() ==> merged_record(partials@, case_insensitive_paths, #[trigger] out@[j])
                && passes_cutoff(opt_instant(out@[j].newest_branch_activity_at), activity_cutoff),
        forall|i: int|
            0 <= i < partials.len() && passes_cutoff(
                group_newest(partials@, key_of(partials@[i], case_insensitive_paths), case_insensitive_paths),
                activity_cutoff,
            ) ==> #[trigger] record_keys(out@, case_insensitive_paths).contains(
                key_of(partials@[i], case_insensitive_paths),
            ),
        strictly_sorted(record_keys(out@, case_insensitive_paths)),
        merge_outcome(partials@, activity_cutoff, case_insensitive_paths, out@),
{
    let ghost ps = partials@;
    let ci = case_insensitive_paths;
    let mut keys: Vec<String> = Vec::new();
    let mut entries: Vec<PartialProject> = Vec::new();
    let ghost mut firsts: Seq<int> = Seq::empty();
    assert(merge_state(ps, 0, ci, texts(keys@), entries@, firsts)) by {
        assert(texts(keys@) =~= Seq::<Seq<char>>::empty());
    }
    for partial in it: partials
        invariant
            it.seq() == ps,
            merge_state(ps, it.index() as int, ci, texts(keys@), entries@, firsts),
    {
        let ghost i = it.index() as int;
        assert(partial == ps[i]);
        let key = project_key(partial.path_on_disk.as_str(), ci);
        let (found, at) = crate::string_set::find_sorted(&keys, key.as_str());
        if found {
            let ghost old_entries = entries@;
            let mut entry = PartialProject::default();
            entries.set_and_swap(at, &mut entry);
            absorb_partial(&mut entry, partial);
            proof {
                lemma_merge_into_existing(ps, i, ci, texts(keys@), old_entries, firsts, at as int, entry);
            }
            entries.set(at, entry);
            assert(entries@ == old_entries.update(at as int, entry));
        } else {
            let ghost old_keys = texts(keys@);
            let ghost old_entries = entries@;
            proof {
                lemma_merge_new_group(ps, i, ci, old_keys, old_entries, firsts, at as int);
                firsts = firsts.insert(at as int, i);
            }
            keys.insert(at, key);
            entries.insert(at, partial);
            assert(texts(keys@) =~= old_keys.insert(at as int, key_of(ps[i], ci)));
        }
    }
    let ghost ks = texts(keys@);
    let ghost es = entries@;
    let ghost fs = firsts;
    assert(ps.take(ps.len() as int) =~= ps);
    let mut out: Vec<DiscoveredProjectRecord> = Vec::new();
    for entry in it: entries
        invariant
            it.seq() == es,
            merge_state(ps, ps.len() as int, ci, ks, es, fs),
            ps.take(ps.len() as int) == ps,
            forall|o: int|
                0 <= o < out.len() ==> merged_record(ps, ci, #[trigger] out@[o]) && passes_cutoff(
                    opt_instant(out@[o].newest_branch_activity_at),
                    activity_cutoff,
                ),
            forall|o: int, m: int|
                0 <= o < out.len() && it.index() <= m < ks.len() ==> crate::text::text_lt(
                    #[trigger] record_keys(out@, ci)[o],
                    #[trigger] ks[m],
                ),
            strictly_sorted(record_keys(out@, ci)),
            forall|m: int|
                0 <= m < it.index() && passes_cutoff(group_newest(ps, ks[m], ci), activity_cutoff)
                    ==> #[trigger] record_keys(out@, ci).contains(ks[m]),
    {
        let ghost m = it.index() as int;
        assert(entry == es[m]);
        let passes = match activity_cutoff {
            None => true,
            Some(cutoff) => match entry.newest_branch_activity_at {
                Some(at) => !cutoff.is_at_or_after(&at),
                None => false,
            },
        };
        if passes {
            let ghost prev = out@;
            let PartialProject { path_on_disk, names, outlinks, authors, newest_branch_activity_at } =
                entry;
            let names = names.into_vec();
            let outlinks = outlinks.into_vec();
            let authors = authors.into_vec();
            let record = DiscoveredProjectRecord {
                project: DiscoveredProject {
                    path_on_disk,
                    names,
                    outlinks,
                    authors,
                    last_activity_on: None,
                    last_activity_ago: None,
                },
                newest_branch_activity_at,
            };
            out.push(record);
            proof {
                assert(record_key(record, ci) == ks[m]);
                assert(out@ == prev.push(record));
                assert(record_keys(out@, ci) =~= record_keys(prev, ci).push(ks[m]));
                let k = fs[m];
                assert(first_of_group(ps.take(ps.len() as int), ks[m], ci, k));
                assert(first_of_group(ps, ks[m], ci, k));
                assert forall|t: Seq<char>| #[trigger] texts(record.project.names@).contains(t)
                    <==> group_name(ps, ks[m], ci, t) by {
                    assert(es[m].names@.contains(t) <==> group_name(ps.take(ps.len() as int), ks[m], ci, t));
                }
                assert forall|t: Seq<char>| #[trigger] texts(record.project.outlinks@).contains(t)
                    <==> group_outlink(ps, ks[m], ci, t) by {
                    assert(es[m].outlinks@.contains(t) <==> group_outlink(ps.take(ps.len() as int), ks[m], ci, t));
                }
                assert forall|t: Seq<char>| #[trigger] texts(record.project.authors@).contains(t)
                    <==> group_author(ps, ks[m], ci, t) by {
                    assert(es[m].authors@.contains(t) <==> group_author(ps.take(ps.len() as int), ks[m], ci, t));
                }
                assert(merged_record(ps, ci, record));
                assert forall|o: int, n: int|
                    0 <= o < out.len() && m + 1 <= n < ks.len() implies crate::text::text_lt(
                    #[trigger] record_keys(out@, ci)[o],
                    #[trigger] ks[n],
                ) by {
                    if o < prev.len() {
                        assert(record_keys(out@, ci)[o] == record_keys(prev, ci)[o]);
                    }
                }
                assert forall|a: int, b: int|
                    0 <= a < b < out.len() implies crate::text::text_lt(
                    #[trigger] record_keys(out@, ci)[a],
                    #[trigger] record_keys(out@, ci)[b],
                ) by {
                    if b == prev.len() {
                        assert(record_keys(out@, ci)[a] == record_keys(prev, ci)[a]);
                    } else {
                        assert(record_keys(out@, ci)[a] == record_keys(prev, ci)[a]);
                        assert(record_keys(out@, ci)[b] == record_keys(prev, ci)[b]);
                    }
                }
                assert forall|n: int|
                    0 <= n < m + 1 && passes_cutoff(group_newest(ps, ks[n], ci), activity_cutoff)
                    implies #[trigger] record_keys(out@, ci).contains(ks[n]) by {
                    if n < m {
                        assert(record_keys(prev, ci).contains(ks[n]));
                        let o = choose|o: int| 0 <= o < prev.len() && record_keys(prev, ci)[o] == ks[n];
                        assert(record_keys(out@, ci)[o] == ks[n]);
                    } else {
                        assert(record_keys(out@, ci)[prev.len() as int] == ks[n]);
                    }
                }
            }
        } else {
            proof {
                assert(!passes_cutoff(group_newest(ps, ks[m], ci), activity_cutoff)) by {
                    assert(opt_instant(es[m].newest_branch_activity_at) == group_newest(
                        ps.take(ps.len() as int),
                        ks[m],
                        ci,
                    ));
                }
            }
        }
    }
    proof {
        assert forall|i: int|
            0 <= i < ps.len() && passes_cutoff(group_newest(ps, key_of(ps[i], ci), ci), activity_cutoff)
            implies #[trigger] record_keys(out@, ci).contains(key_of(ps[i], ci)) by {
            assert(ks.contains(key_of(ps[i], ci)));
            let m = choose|m: int| 0 <= m < ks.len() && ks[m] == key_of(ps[i], ci);
            assert(passes_cutoff(group_newest(ps, ks[m], ci), activity_cutoff));
        }
    }
    out
}

// ---------------------------------------------------------------------------
// Branch activity
// ---------------------------------------------------------------------------

/// The whole seconds since the epoch of a time at or after the epoch;
/// `None` for earlier times.
pub fn system_time_to_unix_seconds(value: Timestamp) -> (out: Option<i64>)
    ensures
        out == if value@ >= 0 {
            Some((value@ / 1_000_000_000) as i64)
        } else {
            None::<i64>
        },
{
    let epoch = Timestamp::unix_epoch();
    match value.duration_since(&epoch) {
        Some(_) => {
            let secs = value.unix_secs();
            Some(secs)
        },
        None => None,
    }
}

/// The time `value` seconds after the epoch; `None` for negative values.
pub fn unix_seconds_to_system_time(value: i64) -> (out: Option<Timestamp>)
    ensures
        out is Some <==> value >= 0,
        out matches Some(t) ==> t@ == value * 1_000_000_000,
{
    if value < 0 {
        None
    } else {
        let epoch = Timestamp::unix_epoch();
        let out = epoch.checked_add(TimeSpan::from_secs(value as u64));
        assert(out is Some) by {
            assert(value * 1_000_000_000 <= crate::time::max_timestamp_nanos()) by (nonlinear_arith)
                requires
                    value <= i64::MAX,
                    value >= 0,
            ;
        }
        out
    }
}

/// The commit-time cutoff, in seconds since the epoch, under which a walk
/// of branch history may stop early; none when there is no cutoff or it
/// lies before the epoch.
pub fn activity_walk_cutoff_seconds(cutoff: Option<Timestamp>) -> (out: Option<i64>)
    ensures
        out == match cutoff {
            Some(c) => if c@ >= 0 {
                Some((c@ / 1_000_000_000) as i64)
            } else {
                None::<i64>
            },
            None => None::<i64>,
        },
{
    match cutoff {
        Some(c) => system_time_to_unix_seconds(c),
        None => None,
    }
}

/// The newest branch activity that counts: with a cutoff, only activity
/// newer than it.
pub fn newest_activity_within_cutoff(newest: Option<Timestamp>, cutoff: Option<Timestamp>) -> (out:
    Option<Timestamp>)
    ensures
        out == match (newest, cutoff) {
            (Some(n), Some(c)) => if n@ > c@ {
                Some(n)
            } else {
                None::<Timestamp>
            },
            (n, None) => n,
            (None, Some(_)) => None::<Timestamp>,
        },
{
    match (newest, cutoff) {
        (Some(newest), Some(cutoff)) => if !cutoff.is_at_or_after(&newest) {
            Some(newest)
        } else {
            None
        },
        (newest, None) => newest,
        (None, Some(_)) => None,
    }
}

// ---------------------------------------------------------------------------
// Scanning git history for authors
// ---------------------------------------------------------------------------

/// Whether author scanning goes on after `scanned_commits` commits and
/// `elapsed` time: until the minimum is reached, and after that while the
/// time budget lasts.
pub fn should_continue_author_scan(
    scanned_commits: usize,
    elapsed: TimeSpan,
    config: DiscoveryConfig,
) -> (out: bool)
    ensures
        out == (scanned_commits < config.author_min_commits || elapsed@
            < config.author_scan_budget@),
{
    scanned_commits < config.author_min_commits || elapsed.is_shorter_than(
        &config.author_scan_budget,
    )
}

/// The size of the next chunk of commits to scan.
pub open spec fn chunk_limit(scanned_commits: usize, config: DiscoveryConfig) -> usize {
    if scanned_commits < config.author_min_commits {
        let remaining = (config.author_min_commits - scanned_commits) as usize;
        let limited = if remaining < config.author_scan_chunk_size {
            remaining
        } else {
            config.author_scan_chunk_size
        };
        if limited >= 1 {
            limited
        } else {
            1
        }
    } else {
        config.author_scan_chunk_size
    }
}

/// How many commits to scan before the time budget is checked again: what
/// remains of the minimum (but no more than a chunk, and at least one),
/// then whole chunks.
pub fn next_author_scan_chunk_limit(scanned_commits: usize, config: DiscoveryConfig) -> (out:
    usize)
    ensures
        out == chunk_limit(scanned_commits, config),
{
    if scanned_commits < config.author_min_commits {
        let remaining = config.author_min_commits - scanned_commits;
        let limited = if remaining < config.author_scan_chunk_size {
            remaining
        } else {
            config.author_scan_chunk_size
        };
        if limited >= 1 {
            limited
        } else {
            1
        }
    } else {
        config.author_scan_chunk_size
    }
}

/// A chunk that starts below the minimum ends at or below it; no chunk is
/// empty below the minimum.
pub proof fn lemma_chunk_limit_respects_minimum(scanned_commits: usize, config: DiscoveryConfig)
    requires
        scanned_commits < config.author_min_commits,
    ensures
        1 <= chunk_limit(scanned_commits, config),
        scanned_commits + chunk_limit(scanned_commits, config) <= config.author_min_commits,
        chunk_limit(scanned_commits, config) <= config.author_scan_chunk_size || config.author_scan_chunk_size
            == 0,
{
}

/// `a + b`, saturating at `usize::MAX`.
pub open spec fn saturating_sum(a: usize, b: usize) -> usize {
    if a + b > usize::MAX {
        usize::MAX
    } else {
        (a + b) as usize
    }
}

/// What the history walk should do next.
#[derive(Clone, Copy, Debug, PartialEq, Eq, Structural)]
pub enum AuthorScanStep {
    /// Read the next commit and record its author.
    ReadCommit,
    /// Ask again: an empty chunk passed while the budget lasts.
    Recheck,
    /// Stop scanning.
    Stop,
}

/// The progress of an author scan: commits scanned in finished chunks, and
/// in the current chunk out of its limit.
#[derive(Clone, Copy, Debug, PartialEq, Eq, Structural)]
pub struct AuthorScan {
    pub scanned_commits: usize,
    pub scanned_in_chunk: usize,
    pub chunk_limit: usize,
}

/// One decision of the author scan at `elapsed` nanoseconds: the step and
/// the scan's next state (see [`AuthorScan::next_step`]).
pub open spec fn scan_round(s: AuthorScan, elapsed: int, config: DiscoveryConfig) -> (
    AuthorScanStep,
    AuthorScan,
) {
    if s.scanned_in_chunk < s.chunk_limit {
        (AuthorScanStep::ReadCommit, s)
    } else {
        let scanned = saturating_sum(s.scanned_commits, s.scanned_in_chunk);
        if scanned < config.author_min_commits || elapsed < config.author_scan_budget@ {
            let limit = chunk_limit(scanned, config);
            (
                if limit > 0 {
                    AuthorScanStep::ReadCommit
                } else {
                    AuthorScanStep::Recheck
                },
                AuthorScan { scanned_commits: scanned, scanned_in_chunk: 0, chunk_limit: limit },
            )
        } else {
            (AuthorScanStep::Stop, AuthorScan { scanned_commits: scanned, scanned_in_chunk: 0, chunk_limit: 0 })
        }
    }
}

impl AuthorScan {
    /// The current chunk is not overrun.
    pub open spec fn well_formed(self) -> bool {
        self.scanned_in_chunk <= self.chunk_limit
    }

    /// A scan that has read nothing yet.
    pub fn new() -> (out: AuthorScan)
        ensures
            out.well_formed(),
            out.scanned_commits == 0,
            out.scanned_in_chunk == 0,
            out.chunk_limit == 0,
    {
        AuthorScan { scanned_commits: 0, scanned_in_chunk: 0, chunk_limit: 0 }
    }

    /// Decides the next step after `elapsed` time of scanning. Inside a
    /// chunk the answer is to read on; at the end of a chunk its commits are
    /// counted, and the scan stops unless it is below the minimum or within
    /// the budget, in which case the next chunk begins.
    pub fn next_step(&mut self, elapsed: TimeSpan, config: DiscoveryConfig) -> (out: AuthorScanStep)
        requires
            old(self).well_formed(),
        ensures
            final(self).well_formed(),
            (out, *final(self)) == scan_round(*old(self), elapsed@, config),
            old(self).scanned_in_chunk < old(self).chunk_limit ==> out == AuthorScanStep::ReadCommit
                && *final(self) == *old(self),
            old(self).scanned_in_chunk >= old(self).chunk_limit ==> {
                let scanned = saturating_sum(old(self).scanned_commits, old(self).scanned_in_chunk);
                &&& final(self).scanned_commits == scanned
                &&& final(self).scanned_in_chunk == 0
                &&& if scanned < config.author_min_commits || elapsed@ < config.author_scan_budget@ {
                    &&& final(self).chunk_limit == chunk_limit(scanned, config)
                    &&& out == if final(self).chunk_limit > 0 {
                        AuthorScanStep::ReadCommit
                    } else {
                        AuthorScanStep::Recheck
                    }
                } else {
                    &&& final(self).chunk_limit == 0
                    &&& out == AuthorScanStep::Stop
                }
            },
            out == AuthorScanStep::Stop ==> final(self).scanned_commits >= config.author_min_commits
                && elapsed@ >= config.author_scan_budget@,
            old(self).scanned_in_chunk >= old(self).chunk_limit && final(self).scanned_commits
                < config.author_min_commits ==> out == AuthorScanStep::ReadCommit && final(
                self).scanned_commits + final(self).chunk_limit <= config.author_min_commits,
    {
        if self.scanned_in_chunk < self.chunk_limit {
            return AuthorScanStep::ReadCommit;
        }
        let scanned = self.scanned_commits.saturating_add(self.scanned_in_chunk);
        self.scanned_commits = scanned;
        self.scanned_in_chunk = 0;
        if should_continue_author_scan(scanned, elapsed, config) {
            proof {
                if scanned < config.author_min_commits {
                    lemma_chunk_limit_respects_minimum(scanned, config);
                }
            }
            self.chunk_limit = next_author_scan_chunk_limit(scanned, config);
            if self.chunk_limit > 0 {
                AuthorScanStep::ReadCommit
            } else {
                AuthorScanStep::Recheck
            }
        } else {
            self.chunk_limit = 0;
            AuthorScanStep::Stop
        }
    }

    /// Counts a commit read from the walk (whether or not its author could
    /// be decoded).
    pub fn commit_read(&mut self)
        requires
            old(self).well_formed(),
            old(self).scanned_in_chunk < old(self).chunk_limit,
        ensures
            final(self).well_formed(),
            final(self).scanned_commits == old(self).scanned_commits,
            final(self).chunk_limit == old(self).chunk_limit,
            final(self).scanned_in_chunk == old(self).scanned_in_chunk + 1,
    {
        self.scanned_in_chunk = self.scanned_in_chunk + 1;
    }
}

// ---------------------------------------------------------------------------
// Scheduling enrichment
// ---------------------------------------------------------------------------

/// What the enrichment phase should do next.
#[derive(Clone, Copy, Debug, PartialEq, Eq, Structural)]
pub enum EnrichmentStep {
    /// Start enriching the next candidate.
    Spawn,
    /// Wait for one running enrichment to finish and keep its result.
    JoinOne,
    /// Every candidate is enriched: merge the results.
    Finish,
}

/// The step taken with `pending` candidates left and `in_flight` tasks
/// running.
pub open spec fn enrichment_step(pending: usize, in_flight: usize, max_in_flight: Option<usize>) -> EnrichmentStep {
    if pending > 0 {
        if max_in_flight matches Some(m) && in_flight >= m {
            EnrichmentStep::JoinOne
        } else {
            EnrichmentStep::Spawn
        }
    } else if in_flight > 0 {
        EnrichmentStep::JoinOne
    } else {
        EnrichmentStep::Finish
    }
}

/// Decides the next step of the enrichment phase: candidates are started
/// while fewer tasks than the bound run, a task is awaited when the bound is
/// reached, and once every candidate is started the remaining tasks are
/// awaited.
pub fn next_enrichment_step(pending: usize, in_flight: usize, max_in_flight: Option<usize>) -> (out:
    EnrichmentStep)
    ensures
        out == enrichment_step(pending, in_flight, max_in_flight),
{
    if pending > 0 {
        match max_in_flight {
            Some(m) => if in_flight >= m {
                EnrichmentStep::JoinOne
            } else {
                EnrichmentStep::Spawn
            },
            None => EnrichmentStep::Spawn,
        }
    } else if in_flight > 0 {
        EnrichmentStep::JoinOne
    } else {
        EnrichmentStep::Finish
    }
}

/// With a positive bound, starting a task never takes the number of running
/// tasks above the bound, a task is awaited only while one runs, and the
/// phase finishes only when nothing is left to start or to await.
pub proof fn lemma_enrichment_respects_bound(pending: usize, in_flight: usize, max_in_flight: usize)
    requires
        max_in_flight > 0,
        in_flight <= max_in_flight,
    ensures
        enrichment_step(pending, in_flight, Some(max_in_flight)) == EnrichmentStep::Spawn ==> in_flight
            + 1 <= max_in_flight && pending > 0,
        enrichment_step(pending, in_flight, Some(max_in_flight)) == EnrichmentStep::JoinOne
            ==> in_flight > 0,
        enrichment_step(pending, in_flight, Some(max_in_flight)) == EnrichmentStep::Finish
            <==> pending == 0 && in_flight == 0,
{
}


/// The enrichment phase in progress: candidates left to start, tasks
/// running, and what finished tasks gave back.
pub struct EnrichmentPhase {
    pending: usize,
    in_flight: usize,
    max_in_flight: Option<usize>,
    results: Vec<PartialProject>,
    failed: usize,
    seeds: Ghost<nat>,
}

impl EnrichmentPhase {
    /// Candidates not started yet.
    pub closed spec fn pending(self) -> usize {
        self.pending
    }

    /// Tasks started and not finished.
    pub closed spec fn in_flight(self) -> usize {
        self.in_flight
    }

    /// The bound on running tasks.
    pub closed spec fn max_in_flight(self) -> Option<usize> {
        self.max_in_flight
    }

    /// What the finished tasks gave back, in the order they finished.
    pub closed spec fn results(self) -> Seq<PartialProject> {
        self.results@
    }

    /// Tasks that finished without a result.
    pub closed spec fn failed(self) -> nat {
        self.failed as nat
    }

    /// The candidates the phase was started with.
    pub closed spec fn seeds(self) -> nat {
        self.seeds@
    }

    /// Every candidate is pending, running, or finished with or without a
    /// result; a bound is never exceeded.
    pub closed spec fn well_formed(self) -> bool {
        &&& self.pending + self.in_flight + self.results@.len() + self.failed == self.seeds@
        &&& self.seeds@ <= usize::MAX
        &&& self.max_in_flight != Some(0usize)
        &&& (self.max_in_flight matches Some(m) ==> self.in_flight <= m)
    }

    /// A phase over `seeds` candidates with nothing started.
    pub fn new(seeds: usize, max_in_flight: Option<usize>) -> (out: EnrichmentPhase)
        requires
            max_in_flight != Some(0usize),
        ensures
            out.well_formed(),
            out.pending() == seeds,
            out.in_flight() == 0,
            out.max_in_flight() == max_in_flight,
            out.results() == Seq::<PartialProject>::empty(),
            out.failed() == 0,
            out.seeds() == seeds,
    {
        EnrichmentPhase {
            pending: seeds,
            in_flight: 0,
            max_in_flight,
            results: Vec::new(),
            failed: 0,
            seeds: Ghost(seeds as nat),
        }
    }

    /// The next step (see [`next_enrichment_step`]).
    pub fn next_step(&self) -> (out: EnrichmentStep)
        requires
            self.well_formed(),
        ensures
            out == enrichment_step(self.pending(), self.in_flight(), self.max_in_flight()),
            out == EnrichmentStep::Finish ==> self.results().len() + self.failed() == self.seeds(),
    {
        next_enrichment_step(self.pending, self.in_flight, self.max_in_flight)
    }

    /// Records that the next candidate's task was started.
    pub fn task_started(&mut self)
        requires
            old(self).well_formed(),
            enrichment_step(old(self).pending(), old(self).in_flight(), old(self).max_in_flight())
                == EnrichmentStep::Spawn,
        ensures
            final(self).well_formed(),
            final(self).pending() == old(self).pending() - 1,
            final(self).in_flight() == old(self).in_flight() + 1,
            final(self).max_in_flight() == old(self).max_in_flight(),
            final(self).results() == old(self).results(),
            final(self).failed() == old(self).failed(),
            final(self).seeds() == old(self).seeds(),
            old(self).max_in_flight() matches Some(m) ==> final(self).in_flight() <= m,
    {
        self.pending = self.pending - 1;
        self.in_flight = self.in_flight + 1;
    }

    /// Records that a running task finished, with its result or without one.
    pub fn task_finished(&mut self, result: Option<PartialProject>)
        requires
            old(self).well_formed(),
            old(self).in_flight() > 0,
        ensures
            final(self).well_formed(),
            final(self).pending() == old(self).pending(),
            final(self).in_flight() == old(self).in_flight() - 1,
            final(self).max_in_flight() == old(self).max_in_flight(),
            final(self).results() == match result {
                Some(p) => old(self).results().push(p),
                None => old(self).results(),
            },
            final(self).failed() == old(self).failed() + if result is Some {
                0nat
            } else {
                1nat
            },
            final(self).seeds() == old(self).seeds(),
    {
        self.in_flight = self.in_flight - 1;
        match result {
            Some(p) => self.results.push(p),
            None => self.failed = self.failed + 1,
        }
    }

    /// Merges what the finished tasks gave back, once the phase is over:
    /// every candidate's task has finished, and the records are the merge of
    /// all results (see [`merge_partials`]).
    pub fn into_records(self, activity_cutoff: Option<Timestamp>, case_insensitive_paths: bool) -> (out: Vec<
        DiscoveredProjectRecord,
    >)
        requires
            self.well_formed(),
            enrichment_step(self.pending(), self.in_flight(), self.max_in_flight())
                == EnrichmentStep::Finish,
        ensures
            self.results().len() + self.failed() == self.seeds(),
            merge_outcome(self.results(), activity_cutoff, case_insensitive_paths, out@),
    {
        let EnrichmentPhase { results, .. } = self;
        merge_partials(results, activity_cutoff, case_insensitive_paths)
    }
}

} // verus!
