# locate-git-projects-on-my-computer

Locates source projects on disk by combining git repository signals with
package metadata from `Cargo.toml` files, and prints them as a JSON array
of `path_on_disk`, `names`, `outlinks`, `authors`, `last_activity_on` and
`last_activity_ago`.

## Layout

- `src/` is the verified library (Verus):
  - `text.rs`: trimming, ASCII case, substrings, Unicode lowercase and the
    order of strings, each with an exact specification;
  - `time.rs`: spans and points in time as integers, the system clock and
    the `humantime` parsing and formatting the program uses;
  - `string_set.rs`: sorted, duplicate-free sets of strings;
  - `discovery.rs`: the discovery configuration, what is gathered per
    project marker, the merge of markers by project directory, the
    rendering of activity times, and the decisions that drive enrichment
    and git author scanning;
  - `cli.rs`: the name, author and URL filters and the `--activity` cutoff;
  - `version.rs`: the `--version` line and the reading of the build time;
  - `whole_run.rs`: properties of whole runs: merging in any order, the
    bound on running enrichment tasks, and the commits an author scan covers.
- `app/` is the program around it: argument parsing, the indexed queries,
  reading git repositories and `Cargo.toml` files, the async runtime and the
  JSON output.
- `tests/` exercises the library.
