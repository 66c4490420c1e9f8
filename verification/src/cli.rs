//! What the command line decides: which discovered projects the name,
//! author and URL filters keep, and the activity cutoff of `--activity`.

use vstd::prelude::*;
use vstd::string::StrSliceExecFns;
use crate::discovery::opt_instant;
use crate::discovery::renderable_activity;
use crate::discovery::rendered_project;
use crate::discovery::DiscoveredProject;
use crate::discovery::DiscoveredProjectRecord;
use crate::text::contains_text;
use crate::text::str_contains;
use crate::text::texts;
use crate::text::to_lowercase;
use crate::text::trim;
use crate::text::trimmed;
use crate::text::unicode_lowercase;
use crate::time::ascii_digit_count;
use crate::time::humantime_parsed_duration;
use crate::time::min_timestamp_nanos;
use crate::time::parse_humantime_duration;
use crate::time::TimeSpan;
use crate::time::Timestamp;
use crate::time::MAX_DURATION_DIGITS;

verus! {

// ---------------------------------------------------------------------------
// Filters
// ---------------------------------------------------------------------------

/// A name with `-` written as `_`, so that the two match each other.
pub open spec fn normalized_name(s: Seq<char>) -> Seq<char> {
    s.map_values(|c: char| if c == '-' || c == '_' {
        '_'
    } else {
        c
    })
}

/// `a` and `b` agree everywhere except that one may have `-` where the
/// other has `_`.
pub open spec fn equal_up_to_dash_underscore(a: Seq<char>, b: Seq<char>) -> bool {
    &&& a.len() == b.len()
    &&& forall|i: int|
        0 <= i < a.len() ==> (#[trigger] a[i] == b[i] || ((a[i] == '-' || a[i] == '_') && (b[i]
            == '-' || b[i] == '_')))
}

/// Name matching treats `-` and `_` as the same character and nothing else
/// as equal: two names match exactly when they agree up to `-` and `_`.
pub proof fn lemma_name_match_is_dash_underscore_equivalence(a: Seq<char>, b: Seq<char>)
    ensures
        normalized_name(a) == normalized_name(b) <==> equal_up_to_dash_underscore(a, b),
{
    assert(normalized_name(a).len() == a.len());
    assert(normalized_name(b).len() == b.len());
    assert forall|i: int| 0 <= i < a.len() implies normalized_name(a)[i] == (if a[i] == '-' || a[i]
        == '_' {
        '_'
    } else {
        a[i]
    }) by {}
    assert forall|i: int| 0 <= i < b.len() implies normalized_name(b)[i] == (if b[i] == '-' || b[i]
        == '_' {
        '_'
    } else {
        b[i]
    }) by {}
    if normalized_name(a) == normalized_name(b) {
        assert forall|i: int| 0 <= i < a.len() implies (#[trigger] a[i] == b[i] || ((a[i] == '-'
            || a[i] == '_') && (b[i] == '-' || b[i] == '_'))) by {
            assert(normalized_name(a)[i] == normalized_name(b)[i]);
        }
    }
    if equal_up_to_dash_underscore(a, b) {
        assert(normalized_name(a) =~= normalized_name(b)) by {
            assert forall|i: int| 0 <= i < a.len() implies normalized_name(a)[i] == normalized_name(
                b,
            )[i] by {
                assert(a[i] == b[i] || ((a[i] == '-' || a[i] == '_') && (b[i] == '-' || b[i]
                    == '_')));
            }
        }
    }
}

/// Some filter equals some value.
pub open spec fn any_exact_match(values: Seq<Seq<char>>, filters: Seq<Seq<char>>) -> bool {
    exists|i: int, j: int| 0 <= i < filters.len() && 0 <= j < values.len() && #[trigger] values[j] == #[trigger] filters[i]
}

/// Some filter equals some value once `-` and `_` are treated alike.
pub open spec fn any_name_match(values: Seq<Seq<char>>, filters: Seq<Seq<char>>) -> bool {
    exists|i: int, j: int|
        0 <= i < filters.len() && 0 <= j < values.len() && normalized_name(#[trigger] values[j])
            == normalized_name(#[trigger] filters[i])
}

/// `filter`, trimmed, is not blank and its lowercase form occurs in the
/// lowercase form of `value`.
pub open spec fn author_matches(value: Seq<char>, filter: Seq<char>) -> bool {
    trimmed(filter).len() > 0 && contains_text(
        unicode_lowercase(value),
        unicode_lowercase(trimmed(filter)),
    )
}

/// Some non-blank filter occurs, ignoring case, in some value.
pub open spec fn any_author_match(values: Seq<Seq<char>>, filters: Seq<Seq<char>>) -> bool {
    exists|i: int, j: int|
        0 <= i < filters.len() && 0 <= j < values.len() && author_matches(
            #[trigger] values[j],
            #[trigger] filters[i],
        )
}

/// A project is kept when no filter is given, or when any filter matches:
/// a name filter (with `-` and `_` alike), an author filter (a
/// case-insensitive part of an author) or a URL filter (an exact outlink).
pub open spec fn record_matches(
    record: DiscoveredProjectRecord,
    names: Seq<Seq<char>>,
    authors: Seq<Seq<char>>,
    urls: Seq<Seq<char>>,
) -> bool {
    ||| (names.len() == 0 && authors.len() == 0 && urls.len() == 0)
    ||| any_name_match(texts(record.project.names@), names)
    ||| any_author_match(texts(record.project.authors@), authors)
    ||| any_exact_match(texts(record.project.outlinks@), urls)
}

/// The filters combine by "any": with no filter every record is kept, and
/// otherwise a record is kept exactly when the name filters alone, the
/// author filters alone or the URL filters alone would keep it.
pub proof fn lemma_filters_combine_by_any(
    record: DiscoveredProjectRecord,
    names: Seq<Seq<char>>,
    authors: Seq<Seq<char>>,
    urls: Seq<Seq<char>>,
)
    ensures
        names.len() == 0 && authors.len() == 0 && urls.len() == 0 ==> record_matches(record, names, authors, urls),
        names.len() + authors.len() + urls.len() > 0 ==> (record_matches(record, names, authors, urls) <==> (
        (names.len() > 0 && record_matches(record, names, Seq::empty(), Seq::empty())) || (authors.len() > 0
            && record_matches(record, Seq::empty(), authors, Seq::empty())) || (urls.len() > 0
            && record_matches(record, Seq::empty(), Seq::empty(), urls)))),
{
}

/// URL filters compare exactly: with only URL filters, a record is kept
/// exactly when one of its outlinks is equal to one of the URLs.
pub proof fn lemma_url_filters_match_exactly(record: DiscoveredProjectRecord, urls: Seq<Seq<char>>)
    requires
        urls.len() > 0,
    ensures
        record_matches(record, Seq::empty(), Seq::empty(), urls) <==> exists|i: int, j: int|
            0 <= i < urls.len() && 0 <= j < record.project.outlinks.len()
                && #[trigger] record.project.outlinks@[j]@ == #[trigger] urls[i],
{
    let outlinks = texts(record.project.outlinks@);
    if record_matches(record, Seq::empty(), Seq::empty(), urls) {
        assert(!any_name_match(texts(record.project.names@), Seq::empty()));
        assert(!any_author_match(texts(record.project.authors@), Seq::empty()));
        let (i, j) = choose|i: int, j: int|
            0 <= i < urls.len() && 0 <= j < outlinks.len() && #[trigger] outlinks[j] == #[trigger] urls[i];
        assert(record.project.outlinks@[j]@ == urls[i]);
    }
    if exists|i: int, j: int|
        0 <= i < urls.len() && 0 <= j < record.project.outlinks.len() && #[trigger] record.project.outlinks@[j]@
            == #[trigger] urls[i] {
        let (i, j) = choose|i: int, j: int|
            0 <= i < urls.len() && 0 <= j < record.project.outlinks.len() && #[trigger] record.project.outlinks@[j]@
                == #[trigger] urls[i];
        assert(outlinks[j] == urls[i]);
    }
}

/// Name filters ignore only the difference between `-` and `_`: with only
/// name filters, a record is kept exactly when one of its names agrees with
/// one of the filters up to `-` and `_`.
pub proof fn lemma_name_filters_match_up_to_dash_underscore(
    record: DiscoveredProjectRecord,
    names: Seq<Seq<char>>,
)
    requires
        names.len() > 0,
    ensures
        record_matches(record, names, Seq::empty(), Seq::empty()) <==> exists|i: int, j: int|
            0 <= i < names.len() && 0 <= j < record.project.names.len() && equal_up_to_dash_underscore(
                #[trigger] record.project.names@[j]@,
                #[trigger] names[i],
            ),
{
    let values = texts(record.project.names@);
    if record_matches(record, names, Seq::empty(), Seq::empty()) {
        assert(!any_author_match(texts(record.project.authors@), Seq::empty()));
        assert(!any_exact_match(texts(record.project.outlinks@), Seq::empty()));
        let (i, j) = choose|i: int, j: int|
            0 <= i < names.len() && 0 <= j < values.len() && normalized_name(#[trigger] values[j])
                == normalized_name(#[trigger] names[i]);
        lemma_name_match_is_dash_underscore_equivalence(values[j], names[i]);
        assert(record.project.names@[j]@ == values[j]);
    }
    if exists|i: int, j: int|
        0 <= i < names.len() && 0 <= j < record.project.names.len() && equal_up_to_dash_underscore(
            #[trigger] record.project.names@[j]@,
            #[trigger] names[i],
        ) {
        let (i, j) = choose|i: int, j: int|
            0 <= i < names.len() && 0 <= j < record.project.names.len() && equal_up_to_dash_underscore(
                #[trigger] record.project.names@[j]@,
                #[trigger] names[i],
            );
        lemma_name_match_is_dash_underscore_equivalence(values[j], names[i]);
        assert(values[j] == record.project.names@[j]@);
        assert(any_name_match(values, names));
    }
}

/// Author filters match a part of an author, ignoring case: with only author
/// filters, a record is kept exactly when, for some author and some filter
/// that is not blank, the lowercased trimmed filter is what the lowercased
/// author holds from some position on.
pub proof fn lemma_author_filters_match_parts_ignoring_case(
    record: DiscoveredProjectRecord,
    authors: Seq<Seq<char>>,
)
    requires
        authors.len() > 0,
    ensures
        record_matches(record, Seq::empty(), authors, Seq::empty()) <==> exists|i: int, j: int, at: int|
            #![trigger authors[i], unicode_lowercase(record.project.authors@[j]@).skip(at)]
            0 <= i < authors.len() && 0 <= j < record.project.authors.len() && trimmed(authors[i]).len() > 0
                && 0 <= at <= unicode_lowercase(record.project.authors@[j]@).len() && unicode_lowercase(
                record.project.authors@[j]@,
            ).skip(at).len() >= unicode_lowercase(trimmed(authors[i])).len() && unicode_lowercase(
                record.project.authors@[j]@,
            ).skip(at).take(unicode_lowercase(trimmed(authors[i])).len() as int) == unicode_lowercase(
                trimmed(authors[i]),
            ),
{
    let values = texts(record.project.authors@);
    if record_matches(record, Seq::empty(), authors, Seq::empty()) {
        assert(!any_name_match(texts(record.project.names@), Seq::empty()));
        assert(!any_exact_match(texts(record.project.outlinks@), Seq::empty()));
        let (i, j) = choose|i: int, j: int|
            0 <= i < authors.len() && 0 <= j < values.len() && author_matches(
                #[trigger] values[j],
                #[trigger] authors[i],
            );
        assert(values[j] == record.project.authors@[j]@);
        let hay = unicode_lowercase(values[j]);
        let needle = unicode_lowercase(trimmed(authors[i]));
        let at = choose|at: int| crate::text::occurs_at(hay, needle, at);
        assert(hay.skip(at).take(needle.len() as int) =~= hay.subrange(at, at + needle.len()));
        assert(authors[i] == authors[i]);
        assert(hay.skip(at) == unicode_lowercase(record.project.authors@[j]@).skip(at));
    }
    if exists|i: int, j: int, at: int|
        #![trigger authors[i], unicode_lowercase(record.project.authors@[j]@).skip(at)]
        0 <= i < authors.len() && 0 <= j < record.project.authors.len() && trimmed(authors[i]).len() > 0
            && 0 <= at <= unicode_lowercase(record.project.authors@[j]@).len() && unicode_lowercase(
            record.project.authors@[j]@,
        ).skip(at).len() >= unicode_lowercase(trimmed(authors[i])).len() && unicode_lowercase(
            record.project.authors@[j]@,
        ).skip(at).take(unicode_lowercase(trimmed(authors[i])).len() as int) == unicode_lowercase(
            trimmed(authors[i]),
        ) {
        let (i, j, at) = choose|i: int, j: int, at: int|
            #![trigger authors[i], unicode_lowercase(record.project.authors@[j]@).skip(at)]
            0 <= i < authors.len() && 0 <= j < record.project.authors.len() && trimmed(authors[i]).len() > 0
                && 0 <= at <= unicode_lowercase(record.project.authors@[j]@).len() && unicode_lowercase(
                record.project.authors@[j]@,
            ).skip(at).len() >= unicode_lowercase(trimmed(authors[i])).len() && unicode_lowercase(
                record.project.authors@[j]@,
            ).skip(at).take(unicode_lowercase(trimmed(authors[i])).len() as int) == unicode_lowercase(
                trimmed(authors[i]),
            );
        assert(values[j] == record.project.authors@[j]@);
        let hay = unicode_lowercase(values[j]);
        let needle = unicode_lowercase(trimmed(authors[i]));
        assert(hay.skip(at).take(needle.len() as int) =~= hay.subrange(at, at + needle.len()));
        assert(crate::text::occurs_at(hay, needle, at));
        assert(author_matches(values[j], authors[i]));
    }
}

/// Writes `-` as `_` so that names differing only there compare equal.
pub fn normalize_name_for_matching(value: &str) -> (out: String)
    ensures
        out@ == normalized_name(value@),
{
    let v = crate::text::chars_of(value);
    let mut mapped: Vec<char> = Vec::new();
    let mut i: usize = 0;
    while i < v.len()
        invariant
            v@ == value@,
            i <= v.len(),
            mapped@ == normalized_name(value@.take(i as int)),
        decreases v.len() - i,
    {
        let c = v[i];
        let m = if c == '-' || c == '_' {
            '_'
        } else {
            c
        };
        mapped.push(m);
        assert(normalized_name(value@.take(i + 1)) =~= normalized_name(value@.take(i as int)).push(m));
        i = i + 1;
    }
    assert(value@.take(v.len() as int) =~= value@);
    crate::text::string_from_chars(&mapped, 0, mapped.len())
}

/// Whether any filter is one of the values.
pub fn contains_any(values: &[String], filters: &[String]) -> (out: bool)
    ensures
        out == any_exact_match(texts(values@), texts(filters@)),
{
    let mut i: usize = 0;
    while i < filters.len()
        invariant
            i <= filters.len(),
            forall|a: int, b: int|
                0 <= a < i && 0 <= b < values@.len() ==> texts(values@)[b] != texts(filters@)[a],
        decreases filters.len() - i,
    {
        let mut j: usize = 0;
        while j < values.len()
            invariant
                i < filters.len(),
                j <= values.len(),
                forall|b: int| 0 <= b < j ==> texts(values@)[b] != texts(filters@)[i as int],
            decreases values.len() - j,
        {
            if values[j] == filters[i] {
                assert(texts(values@)[j as int] == texts(filters@)[i as int]);
                return true;
            }
            j = j + 1;
        }
        i = i + 1;
    }
    false
}

/// Whether any filter equals any value once `-` and `_` are treated alike.
pub fn contains_any_name(values: &[String], filters: &[String]) -> (out: bool)
    ensures
        out == any_name_match(texts(values@), texts(filters@)),
{
    let mut i: usize = 0;
    while i < filters.len()
        invariant
            i <= filters.len(),
            forall|a: int, b: int|
                0 <= a < i && 0 <= b < values@.len() ==> normalized_name(texts(values@)[b])
                    != normalized_name(texts(filters@)[a]),
        decreases filters.len() - i,
    {
        let normalized_filter = normalize_name_for_matching(filters[i].as_str());
        let mut j: usize = 0;
        while j < values.len()
            invariant
                i < filters.len(),
                j <= values.len(),
                normalized_filter@ == normalized_name(texts(filters@)[i as int]),
                forall|b: int|
                    0 <= b < j ==> normalized_name(texts(values@)[b]) != normalized_name(
                        texts(filters@)[i as int],
                    ),
            decreases values.len() - j,
        {
            let normalized_value = normalize_name_for_matching(values[j].as_str());
            if normalized_value == normalized_filter {
                assert(normalized_name(texts(values@)[j as int]) == normalized_name(
                    texts(filters@)[i as int],
                ));
                return true;
            }
            j = j + 1;
        }
        i = i + 1;
    }
    false
}

/// Whether any non-blank filter, trimmed, occurs in any value, comparing
/// their Unicode lowercase forms.
pub fn contains_any_case_insensitive_substring(values: &[String], filters: &[String]) -> (out:
    bool)
    ensures
        out == any_author_match(texts(values@), texts(filters@)),
{
    let mut i: usize = 0;
    while i < filters.len()
        invariant
            i <= filters.len(),
            forall|a: int, b: int|
                0 <= a < i && 0 <= b < values@.len() ==> !author_matches(
                    texts(values@)[b],
                    texts(filters@)[a],
                ),
        decreases filters.len() - i,
    {
        let trimmed_filter = trim(filters[i].as_str());
        if trimmed_filter.as_str().unicode_len() != 0 {
            let filter = to_lowercase(trimmed_filter.as_str());
            let mut j: usize = 0;
            while j < values.len()
                invariant
                    i < filters.len(),
                    j <= values.len(),
                    trimmed_filter@ == trimmed(texts(filters@)[i as int]),
                    trimmed_filter@.len() > 0,
                    filter@ == unicode_lowercase(trimmed_filter@),
                    forall|b: int|
                        0 <= b < j ==> !author_matches(texts(values@)[b], texts(filters@)[i as int]),
                decreases values.len() - j,
            {
                let value = to_lowercase(values[j].as_str());
                if str_contains(value.as_str(), filter.as_str()) {
                    assert(author_matches(texts(values@)[j as int], texts(filters@)[i as int]));
                    return true;
                }
                j = j + 1;
            }
        }
        i = i + 1;
    }
    false
}

/// Whether the filters keep `record`: always when none is given, otherwise
/// when any name, author or URL filter matches.
pub fn matches_any_filter(
    record: &DiscoveredProjectRecord,
    names: &[String],
    authors: &[String],
    urls: &[String],
) -> (out: bool)
    ensures
        out == record_matches(*record, texts(names@), texts(authors@), texts(urls@)),
{
    let has_filters = !(names.len() == 0 && authors.len() == 0 && urls.len() == 0);
    if !has_filters {
        return true;
    }
    contains_any_name(record.project.names.as_slice(), names)
        || contains_any_case_insensitive_substring(record.project.authors.as_slice(), authors)
        || contains_any(record.project.outlinks.as_slice(), urls)
}

// ---------------------------------------------------------------------------
// The activity cutoff
// ---------------------------------------------------------------------------

/// The cutoff for `--activity value`, in nanoseconds since the epoch: `now`
/// minus the `humantime` duration that the trimmed value spells; nothing
/// when there is no value, it is blank or not a duration, or the cutoff
/// would fall outside the time range.
pub open spec fn activity_cutoff(value: Option<Seq<char>>, now: int) -> Option<int> {
    match value {
        None => None,
        Some(v) => if trimmed(v).len() == 0 {
            None
        } else {
            match humantime_parsed_duration(trimmed(v)) {
                None => None,
                Some(d) => {
                    let cutoff = now - (d.0 * 1_000_000_000 + d.1);
                    if cutoff >= min_timestamp_nanos() {
                        Some(cutoff)
                    } else {
                        None
                    }
                },
            }
        },
    }
}

/// The value of `--activity` may be passed to [`activity_cutoff_from_now`].
pub open spec fn activity_value_in_range(value: Option<Seq<char>>) -> bool {
    value matches Some(v) ==> ascii_digit_count(trimmed(v)) <= MAX_DURATION_DIGITS
}

/// Whether `value` may be passed to [`activity_cutoff_from_now`].
pub fn activity_value_is_supported(value: Option<&str>) -> (out: bool)
    ensures
        out == activity_value_in_range(crate::discovery::opt_str_text(value)),
{
    match value {
        None => true,
        Some(v) => {
            let t = trim(v);
            crate::time::count_ascii_digits(t.as_str()) <= MAX_DURATION_DIGITS
        },
    }
}

/// The activity cutoff that `--activity value` asks for, as seen at `now`.
pub fn activity_cutoff_from_now(value: Option<&str>, now: Timestamp) -> (out: Option<Timestamp>)
    requires
        activity_value_in_range(crate::discovery::opt_str_text(value)),
    ensures
        opt_instant(out) == activity_cutoff(crate::discovery::opt_str_text(value), now@),
{
    let value = match value {
        Some(v) => v,
        None => {
            return None;
        },
    };
    let trimmed_value = trim(value);
    if trimmed_value.as_str().unicode_len() == 0 {
        return None;
    }
    match parse_humantime_duration(trimmed_value.as_str()) {
        Some((secs, nanos)) => {
            let span = TimeSpan::new(secs, nanos);
            now.checked_sub(span)
        },
        None => None,
    }
}

// ---------------------------------------------------------------------------
// Selecting the output
// ---------------------------------------------------------------------------

/// The records the filters keep, in order.
pub open spec fn kept_records(
    records: Seq<DiscoveredProjectRecord>,
    names: Seq<Seq<char>>,
    authors: Seq<Seq<char>>,
    urls: Seq<Seq<char>>,
) -> Seq<DiscoveredProjectRecord>
    decreases records.len(),
{
    if records.len() == 0 {
        Seq::empty()
    } else {
        let kept = kept_records(records.drop_last(), names, authors, urls);
        if record_matches(records.last(), names, authors, urls) {
            kept.push(records.last())
        } else {
            kept
        }
    }
}

/// The records kept are exactly the records the filters keep, all of them,
/// in their order: `records` filtered by [`record_matches`]. With no filter,
/// every record is kept.
pub proof fn lemma_kept_records_are_the_matching_records(
    records: Seq<DiscoveredProjectRecord>,
    names: Seq<Seq<char>>,
    authors: Seq<Seq<char>>,
    urls: Seq<Seq<char>>,
)
    ensures
        kept_records(records, names, authors, urls) == records.filter(
            |r: DiscoveredProjectRecord| record_matches(r, names, authors, urls),
        ),
        names.len() == 0 && authors.len() == 0 && urls.len() == 0 ==> kept_records(
            records,
            names,
            authors,
            urls,
        ) == records,
    decreases records.len(),
{
    reveal_with_fuel(Seq::filter, 1);
    if records.len() > 0 {
        lemma_kept_records_are_the_matching_records(records.drop_last(), names, authors, urls);
        if names.len() == 0 && authors.len() == 0 && urls.len() == 0 {
            assert(records.drop_last().push(records.last()) =~= records);
        }
    }
}

/// The records kept from a prefix of `records` come first, in the same
/// order, among those kept from all of `records`.
proof fn lemma_kept_prefix(
    records: Seq<DiscoveredProjectRecord>,
    names: Seq<Seq<char>>,
    authors: Seq<Seq<char>>,
    urls: Seq<Seq<char>>,
    i: int,
)
    requires
        0 <= i <= records.len(),
    ensures
        kept_records(records.take(i), names, authors, urls).len() <= kept_records(
            records,
            names,
            authors,
            urls,
        ).len(),
        forall|k: int|
            0 <= k < kept_records(records.take(i), names, authors, urls).len() ==> #[trigger] kept_records(
                records.take(i),
                names,
                authors,
                urls,
            )[k] == kept_records(records, names, authors, urls)[k],
    decreases records.len(),
{
    if i == records.len() {
        assert(records.take(i) =~= records);
    } else {
        let shorter = records.drop_last();
        assert(records.take(i) =~= shorter.take(i));
        lemma_kept_prefix(shorter, names, authors, urls, i);
    }
}

/// The projects to emit: the records that the filters keep, in order, with
/// their activity rendered as seen from `now`.
pub fn select_projects(
    records: Vec<DiscoveredProjectRecord>,
    names: &[String],
    authors: &[String],
    urls: &[String],
    now: Timestamp,
) -> (out: Vec<DiscoveredProject>)
    requires
        forall|k: int|
            0 <= k < kept_records(records@, texts(names@), texts(authors@), texts(urls@)).len()
                ==> renderable_activity(
                #[trigger] kept_records(records@, texts(names@), texts(authors@), texts(urls@))[k].newest_branch_activity_at,
            ),
    ensures
        out.len() == kept_records(records@, texts(names@), texts(authors@), texts(urls@)).len(),
        forall|k: int|
            0 <= k < out.len() ==> rendered_project(
                kept_records(records@, texts(names@), texts(authors@), texts(urls@))[k],
                now,
                #[trigger] out@[k],
            ),
{
    let ghost rs = records@;
    let ghost n = texts(names@);
    let ghost a = texts(authors@);
    let ghost u = texts(urls@);
    let mut out: Vec<DiscoveredProject> = Vec::new();
    for record in it: records
        invariant
            it.seq() == rs,
            forall|k: int|
                0 <= k < kept_records(rs, n, a, u).len() ==> renderable_activity(
                    #[trigger] kept_records(rs, n, a, u)[k].newest_branch_activity_at,
                ),
            n == texts(names@),
            a == texts(authors@),
            u == texts(urls@),
            out.len() == kept_records(rs.take(it.index() as int), n, a, u).len(),
            forall|k: int|
                0 <= k < out.len() ==> rendered_project(
                    kept_records(rs.take(it.index() as int), n, a, u)[k],
                    now,
                    #[trigger] out@[k],
                ),
    {
        let ghost i = it.index() as int;
        assert(record == rs[i]);
        assert(rs.take(i + 1).drop_last() =~= rs.take(i));
        assert(rs.take(i + 1).last() == rs[i]);
        if matches_any_filter(&record, names, authors, urls) {
            let ghost prev = out@;
            proof {
                lemma_kept_prefix(rs, n, a, u, i + 1);
                assert(kept_records(rs.take(i + 1), n, a, u)[prev.len() as int] == rs[i]);
            }
            let project = record.into_project_at(now);
            out.push(project);
            assert forall|k: int| 0 <= k < out.len() implies rendered_project(
                kept_records(rs.take(i + 1), n, a, u)[k],
                now,
                #[trigger] out@[k],
            ) by {
                if k < prev.len() {
                    assert(out@[k] == prev[k]);
                }
            }
        }
    }
    assert(rs.take(rs.len() as int) =~= rs);
    out
}

} // verus!
