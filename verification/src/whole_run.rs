//! Properties of whole discovery runs: merging does not depend on the order
//! in which enrichment results arrive, enrichment never runs more tasks than
//! its bound allows, and author scans cover the minimum number of commits.

use vstd::prelude::*;
use crate::discovery::enrichment_step;
use crate::discovery::lemma_chunk_limit_respects_minimum;
use crate::discovery::scan_round;
use crate::discovery::AuthorScan;
use crate::discovery::AuthorScanStep;
use crate::discovery::DiscoveryConfig;
use crate::discovery::first_of_group;
use crate::discovery::EnrichmentStep;
use crate::discovery::group_newest;
use crate::discovery::in_group;
use crate::discovery::key_of;
use crate::discovery::merge_outcome;
use crate::discovery::merged_record;
use crate::discovery::newer;
use crate::discovery::opt_instant;
use crate::discovery::passes_cutoff;
use crate::discovery::record_key;
use crate::discovery::record_keys;
use crate::discovery::DiscoveredProjectRecord;
use crate::discovery::PartialProject;
use crate::string_set::lemma_sorted_texts_are_unique;
use crate::text::texts;
use crate::time::Timestamp;

verus! {

// ---------------------------------------------------------------------------
// Merging in any order
// ---------------------------------------------------------------------------

/// `qs` lists the partials of `ps` in another order: `qs[j]` is
/// `ps[to_ps[j]]`, and `to_qs` undoes `to_ps`.
pub open spec fn is_reordering(
    ps: Seq<PartialProject>,
    qs: Seq<PartialProject>,
    to_ps: Seq<int>,
    to_qs: Seq<int>,
) -> bool {
    &&& qs.len() == ps.len()
    &&& to_ps.len() == qs.len()
    &&& to_qs.len() == ps.len()
    &&& forall|j: int|
        0 <= j < qs.len() ==> 0 <= #[trigger] to_ps[j] < ps.len() && qs[j] == ps[to_ps[j]] && to_qs[to_ps[j]]
            == j
    &&& forall|i: int| 0 <= i < ps.len() ==> 0 <= #[trigger] to_qs[i] < qs.len() && to_ps[to_qs[i]] == i
}

/// Partials of the same directory carry the same path.
pub open spec fn paths_agree_by_key(ps: Seq<PartialProject>, ci: bool) -> bool {
    forall|a: int, b: int|
        0 <= a < ps.len() && 0 <= b < ps.len() && key_of(#[trigger] ps[a], ci) == key_of(#[trigger] ps[b], ci)
            ==> ps[a].path_on_disk == ps[b].path_on_disk
}

/// The newest activity of a group is absent exactly when no member has one,
/// and otherwise it is a member's activity that no member's exceeds.
proof fn lemma_group_newest_is_the_maximum(ps: Seq<PartialProject>, key: Seq<char>, ci: bool)
    ensures
        group_newest(ps, key, ci) is None <==> forall|i: int|
            in_group(ps, key, ci, i) ==> opt_instant((#[trigger] ps[i]).newest_branch_activity_at) is None,
        group_newest(ps, key, ci) matches Some(v) ==> exists|i: int|
            in_group(ps, key, ci, i) && opt_instant((#[trigger] ps[i]).newest_branch_activity_at) == Some(v),
        forall|i: int|
            in_group(ps, key, ci, i) && opt_instant((#[trigger] ps[i]).newest_branch_activity_at) is Some
                ==> group_newest(ps, key, ci) is Some && opt_instant(ps[i].newest_branch_activity_at)->0
                <= group_newest(ps, key, ci)->0,
    decreases ps.len(),
{
    if ps.len() > 0 {
        let d = ps.drop_last();
        let last = ps.len() - 1;
        lemma_group_newest_is_the_maximum(d, key, ci);
        assert forall|i: int| 0 <= i < d.len() implies #[trigger] d[i] == ps[i] by {}
        let rest = group_newest(d, key, ci);
        let here = opt_instant(ps[last].newest_branch_activity_at);
        assert(ps.last() == ps[last]);
        if key_of(ps[last], ci) == key {
            assert(group_newest(ps, key, ci) == newer(rest, here));
            if let Some(v) = group_newest(ps, key, ci) {
                if rest is Some && (here is None || rest->0 >= here->0) {
                    let r = rest->0;
                    let k = choose|k: int|
                        in_group(d, key, ci, k) && opt_instant((#[trigger] d[k]).newest_branch_activity_at)
                            == Some(r);
                    assert(in_group(ps, key, ci, k) && opt_instant(ps[k].newest_branch_activity_at) == Some(v));
                } else {
                    assert(in_group(ps, key, ci, last));
                }
            }
            assert forall|i: int|
                in_group(ps, key, ci, i) && opt_instant((#[trigger] ps[i]).newest_branch_activity_at) is Some
                implies group_newest(ps, key, ci) is Some && opt_instant(ps[i].newest_branch_activity_at)->0
                <= group_newest(ps, key, ci)->0 by {
                if i < last {
                    assert(in_group(d, key, ci, i));
                    assert(opt_instant(d[i].newest_branch_activity_at) is Some);
                }
            }
            if group_newest(ps, key, ci) is None {
                assert forall|i: int| in_group(ps, key, ci, i) implies opt_instant(
                    (#[trigger] ps[i]).newest_branch_activity_at,
                ) is None by {
                    if i < last {
                        assert(in_group(d, key, ci, i));
                        assert(opt_instant(d[i].newest_branch_activity_at) is None);
                    }
                }
            }
        } else {
            assert(group_newest(ps, key, ci) == rest);
            if let Some(v) = rest {
                let k = choose|k: int|
                    in_group(d, key, ci, k) && opt_instant((#[trigger] d[k]).newest_branch_activity_at) == Some(v);
                assert(in_group(ps, key, ci, k) && opt_instant(ps[k].newest_branch_activity_at) == Some(v));
            }
            assert forall|i: int|
                in_group(ps, key, ci, i) && opt_instant((#[trigger] ps[i]).newest_branch_activity_at) is Some
                implies group_newest(ps, key, ci) is Some && opt_instant(ps[i].newest_branch_activity_at)->0
                <= group_newest(ps, key, ci)->0 by {
                assert(i < last);
                assert(in_group(d, key, ci, i));
                assert(opt_instant(d[i].newest_branch_activity_at) is Some);
            }
            if rest is None {
                assert forall|i: int| in_group(ps, key, ci, i) implies opt_instant(
                    (#[trigger] ps[i]).newest_branch_activity_at,
                ) is None by {
                    assert(i < last);
                    assert(in_group(d, key, ci, i));
                }
            }
        }
    }
}

/// A group with a member has a first member.
proof fn lemma_group_has_first(ps: Seq<PartialProject>, key: Seq<char>, ci: bool, i: int)
    requires
        in_group(ps, key, ci, i),
    ensures
        exists|f: int| first_of_group(ps, key, ci, f),
    decreases i,
{
    if exists|k: int| 0 <= k < i && key_of(#[trigger] ps[k], ci) == key {
        let k = choose|k: int| 0 <= k < i && key_of(#[trigger] ps[k], ci) == key;
        lemma_group_has_first(ps, key, ci, k);
    } else {
        assert(first_of_group(ps, key, ci, i));
    }
}

/// Reordering the partials changes no group: the same directories have
/// members, with the same newest activity, and a record is the merged record
/// of its directory in one order exactly when it is in the other.
pub proof fn lemma_groups_ignore_order(
    ps: Seq<PartialProject>,
    qs: Seq<PartialProject>,
    to_ps: Seq<int>,
    to_qs: Seq<int>,
    ci: bool,
)
    requires
        is_reordering(ps, qs, to_ps, to_qs),
        paths_agree_by_key(ps, ci),
    ensures
        forall|key: Seq<char>| #[trigger] group_newest(qs, key, ci) == group_newest(ps, key, ci),
        forall|r: DiscoveredProjectRecord| #[trigger] merged_record(qs, ci, r) <==> merged_record(ps, ci, r),
{
    assert forall|key: Seq<char>| #[trigger] group_newest(qs, key, ci) == group_newest(ps, key, ci) by {
        lemma_group_newest_is_the_maximum(ps, key, ci);
        lemma_group_newest_is_the_maximum(qs, key, ci);
        if let Some(v) = group_newest(ps, key, ci) {
            let i = choose|i: int|
                in_group(ps, key, ci, i) && opt_instant((#[trigger] ps[i]).newest_branch_activity_at) == Some(v);
            let j = to_qs[i];
            assert(qs[j] == ps[i]);
            assert(in_group(qs, key, ci, j));
            let w = group_newest(qs, key, ci)->0;
            let j2 = choose|j2: int|
                in_group(qs, key, ci, j2) && opt_instant((#[trigger] qs[j2]).newest_branch_activity_at) == Some(w);
            assert(in_group(ps, key, ci, to_ps[j2]));
            assert(ps[to_ps[j2]] == qs[j2]);
        } else {
            if let Some(w) = group_newest(qs, key, ci) {
                let j2 = choose|j2: int|
                    in_group(qs, key, ci, j2) && opt_instant((#[trigger] qs[j2]).newest_branch_activity_at) == Some(
                        w,
                    );
                assert(in_group(ps, key, ci, to_ps[j2]));
                assert(ps[to_ps[j2]] == qs[j2]);
            }
        }
    }
    assert forall|r: DiscoveredProjectRecord| #[trigger] merged_record(qs, ci, r) <==> merged_record(ps, ci, r) by {
        let key = record_key(r, ci);
        assert forall|t: Seq<char>| crate::discovery::group_name(qs, key, ci, t) <==> crate::discovery::group_name(ps, key, ci, t) by {
            if crate::discovery::group_name(qs, key, ci, t) {
                let j = choose|j: int| in_group(qs, key, ci, j) && (#[trigger] qs[j]).names@.contains(t);
                assert(ps[to_ps[j]] == qs[j]);
                assert(in_group(ps, key, ci, to_ps[j]));
            }
            if crate::discovery::group_name(ps, key, ci, t) {
                let i = choose|i: int| in_group(ps, key, ci, i) && (#[trigger] ps[i]).names@.contains(t);
                assert(qs[to_qs[i]] == ps[i]);
                assert(in_group(qs, key, ci, to_qs[i]));
            }
        }
        assert forall|t: Seq<char>| crate::discovery::group_outlink(qs, key, ci, t) <==> crate::discovery::group_outlink(ps, key, ci, t) by {
            if crate::discovery::group_outlink(qs, key, ci, t) {
                let j = choose|j: int| in_group(qs, key, ci, j) && (#[trigger] qs[j]).outlinks@.contains(t);
                assert(ps[to_ps[j]] == qs[j]);
                assert(in_group(ps, key, ci, to_ps[j]));
            }
            if crate::discovery::group_outlink(ps, key, ci, t) {
                let i = choose|i: int| in_group(ps, key, ci, i) && (#[trigger] ps[i]).outlinks@.contains(t);
                assert(qs[to_qs[i]] == ps[i]);
                assert(in_group(qs, key, ci, to_qs[i]));
            }
        }
        assert forall|t: Seq<char>| crate::discovery::group_author(qs, key, ci, t) <==> crate::discovery::group_author(ps, key, ci, t) by {
            if crate::discovery::group_author(qs, key, ci, t) {
                let j = choose|j: int| in_group(qs, key, ci, j) && (#[trigger] qs[j]).authors@.contains(t);
                assert(ps[to_ps[j]] == qs[j]);
                assert(in_group(ps, key, ci, to_ps[j]));
            }
            if crate::discovery::group_author(ps, key, ci, t) {
                let i = choose|i: int| in_group(ps, key, ci, i) && (#[trigger] ps[i]).authors@.contains(t);
                assert(qs[to_qs[i]] == ps[i]);
                assert(in_group(qs, key, ci, to_qs[i]));
            }
        }
        if merged_record(qs, ci, r) {
            let j = choose|j: int| first_of_group(qs, key, ci, j) && qs[j].path_on_disk == r.project.path_on_disk;
            let i = to_ps[j];
            assert(ps[i] == qs[j]);
            assert(in_group(ps, key, ci, i));
            lemma_group_has_first(ps, key, ci, i);
            let f = choose|f: int| first_of_group(ps, key, ci, f);
            assert(ps[f].path_on_disk == ps[i].path_on_disk);
            assert(first_of_group(ps, key, ci, f) && ps[f].path_on_disk == r.project.path_on_disk);
        }
        if merged_record(ps, ci, r) {
            let i = choose|i: int| first_of_group(ps, key, ci, i) && ps[i].path_on_disk == r.project.path_on_disk;
            let j = to_qs[i];
            assert(qs[j] == ps[i]);
            assert(in_group(qs, key, ci, j));
            lemma_group_has_first(qs, key, ci, j);
            let f = choose|f: int| first_of_group(qs, key, ci, f);
            assert(ps[to_ps[f]] == qs[f]);
            assert(ps[to_ps[f]].path_on_disk == ps[i].path_on_disk);
            assert(first_of_group(qs, key, ci, f) && qs[f].path_on_disk == r.project.path_on_disk);
        }
    }
}

/// Merging gives the same result whatever the order in which the partials
/// arrive (as long as partials of one directory carry the same path): the
/// same directories in the same order, each with the same path, the same
/// names, outlinks and authors, and the same newest activity.
pub proof fn lemma_merge_ignores_order(
    ps: Seq<PartialProject>,
    qs: Seq<PartialProject>,
    to_ps: Seq<int>,
    to_qs: Seq<int>,
    activity_cutoff: Option<Timestamp>,
    ci: bool,
    out_p: Seq<DiscoveredProjectRecord>,
    out_q: Seq<DiscoveredProjectRecord>,
)
    requires
        is_reordering(ps, qs, to_ps, to_qs),
        paths_agree_by_key(ps, ci),
        merge_outcome(ps, activity_cutoff, ci, out_p),
        merge_outcome(qs, activity_cutoff, ci, out_q),
    ensures
        out_p.len() == out_q.len(),
        record_keys(out_p, ci) == record_keys(out_q, ci),
        forall|j: int|
            0 <= j < out_p.len() ==> {
                let a = #[trigger] out_p[j];
                let b = out_q[j];
                &&& a.project.path_on_disk == b.project.path_on_disk
                &&& texts(a.project.names@) == texts(b.project.names@)
                &&& texts(a.project.outlinks@) == texts(b.project.outlinks@)
                &&& texts(a.project.authors@) == texts(b.project.authors@)
                &&& opt_instant(a.newest_branch_activity_at) == opt_instant(b.newest_branch_activity_at)
            },
{
    lemma_groups_ignore_order(ps, qs, to_ps, to_qs, ci);
    let k1 = record_keys(out_p, ci);
    let k2 = record_keys(out_q, ci);
    assert forall|t: Seq<char>| k1.contains(t) <==> k2.contains(t) by {
        if k1.contains(t) {
            let j = choose|j: int| 0 <= j < k1.len() && k1[j] == t;
            let r = out_p[j];
            assert(k1[j] == record_key(r, ci));
            assert(merged_record(ps, ci, r));
            let i = choose|i: int| first_of_group(ps, t, ci, i) && ps[i].path_on_disk == r.project.path_on_disk;
            assert(group_newest(qs, t, ci) == group_newest(ps, t, ci));
            let qi = to_qs[i];
            assert(qs[qi] == ps[i]);
            assert(key_of(qs[qi], ci) == t);
            assert(passes_cutoff(group_newest(qs, key_of(qs[qi], ci), ci), activity_cutoff));
            assert(record_keys(out_q, ci).contains(key_of(qs[qi], ci)));
        }
        if k2.contains(t) {
            let j = choose|j: int| 0 <= j < k2.len() && k2[j] == t;
            let r = out_q[j];
            assert(k2[j] == record_key(r, ci));
            assert(merged_record(qs, ci, r));
            assert(merged_record(ps, ci, r));
            let i = choose|i: int| first_of_group(ps, t, ci, i) && ps[i].path_on_disk == r.project.path_on_disk;
            assert(group_newest(qs, t, ci) == group_newest(ps, t, ci));
            assert(key_of(ps[i], ci) == t);
            assert(passes_cutoff(group_newest(ps, key_of(ps[i], ci), ci), activity_cutoff));
            assert(record_keys(out_p, ci).contains(key_of(ps[i], ci)));
        }
    }
    lemma_sorted_texts_are_unique(k1, k2);
    assert(out_p.len() == k1.len());
    assert(out_q.len() == k2.len());
    assert forall|j: int| 0 <= j < out_p.len() implies {
        let a = #[trigger] out_p[j];
        let b = out_q[j];
        &&& a.project.path_on_disk == b.project.path_on_disk
        &&& texts(a.project.names@) == texts(b.project.names@)
        &&& texts(a.project.outlinks@) == texts(b.project.outlinks@)
        &&& texts(a.project.authors@) == texts(b.project.authors@)
        &&& opt_instant(a.newest_branch_activity_at) == opt_instant(b.newest_branch_activity_at)
    } by {
        let a = out_p[j];
        let b = out_q[j];
        assert(k1[j] == record_key(a, ci));
        assert(k2[j] == record_key(b, ci));
        let key = record_key(a, ci);
        assert(merged_record(ps, ci, a));
        assert(merged_record(qs, ci, b));
        assert(merged_record(ps, ci, b));
        let ia = choose|i: int| first_of_group(ps, key, ci, i) && ps[i].path_on_disk == a.project.path_on_disk;
        let ib = choose|i: int| first_of_group(ps, key, ci, i) && ps[i].path_on_disk == b.project.path_on_disk;
        assert(key_of(ps[ia], ci) == key_of(ps[ib], ci));
        lemma_sorted_texts_are_unique(texts(a.project.names@), texts(b.project.names@));
        lemma_sorted_texts_are_unique(texts(a.project.outlinks@), texts(b.project.outlinks@));
        lemma_sorted_texts_are_unique(texts(a.project.authors@), texts(b.project.authors@));
    }
}

/// A group has one first member.
proof fn lemma_first_of_group_unique(ps: Seq<PartialProject>, key: Seq<char>, ci: bool, i: int, j: int)
    requires
        first_of_group(ps, key, ci, i),
        first_of_group(ps, key, ci, j),
    ensures
        i == j,
{
    if i < j {
        assert(key_of(ps[i], ci) == key);
    } else if j < i {
        assert(key_of(ps[j], ci) == key);
    }
}

/// Merging with an activity cutoff keeps exactly the directories of the
/// merge without one whose newest activity is known and newer than the
/// cutoff, in the same ascending order of key, and each kept record is the
/// same as without the cutoff: same path, names, outlinks, authors and
/// newest activity.
pub proof fn lemma_merge_cutoff_filters(
    ps: Seq<PartialProject>,
    cutoff: Timestamp,
    ci: bool,
    with_cutoff: Seq<DiscoveredProjectRecord>,
    without_cutoff: Seq<DiscoveredProjectRecord>,
)
    requires
        merge_outcome(ps, Some(cutoff), ci, with_cutoff),
        merge_outcome(ps, None, ci, without_cutoff),
    ensures
        forall|k: Seq<char>|
            #[trigger] record_keys(with_cutoff, ci).contains(k) <==> record_keys(without_cutoff, ci).contains(k)
                && (group_newest(ps, k, ci) matches Some(n) && n > cutoff@),
        forall|a: int, b: int|
            0 <= a < with_cutoff.len() && 0 <= b < without_cutoff.len() && record_key(
                #[trigger] with_cutoff[a],
                ci,
            ) == record_key(#[trigger] without_cutoff[b], ci) ==> {
                let x = with_cutoff[a];
                let y = without_cutoff[b];
                &&& x.project.path_on_disk == y.project.path_on_disk
                &&& texts(x.project.names@) == texts(y.project.names@)
                &&& texts(x.project.outlinks@) == texts(y.project.outlinks@)
                &&& texts(x.project.authors@) == texts(y.project.authors@)
                &&& opt_instant(x.newest_branch_activity_at) == opt_instant(y.newest_branch_activity_at)
            },
{
    let kc = record_keys(with_cutoff, ci);
    let kn = record_keys(without_cutoff, ci);
    assert forall|k: Seq<char>|
        #[trigger] kc.contains(k) <==> kn.contains(k) && (group_newest(ps, k, ci) matches Some(n) && n > cutoff@) by {
        if kc.contains(k) {
            let j = choose|j: int| 0 <= j < kc.len() && kc[j] == k;
            let r = with_cutoff[j];
            assert(kc[j] == record_key(r, ci));
            assert(merged_record(ps, ci, r));
            assert(passes_cutoff(opt_instant(r.newest_branch_activity_at), Some(cutoff)));
            let i = choose|i: int| first_of_group(ps, k, ci, i) && ps[i].path_on_disk == r.project.path_on_disk;
            assert(key_of(ps[i], ci) == k);
            assert(passes_cutoff(group_newest(ps, key_of(ps[i], ci), ci), None));
            assert(kn.contains(key_of(ps[i], ci)));
        }
        if kn.contains(k) && (group_newest(ps, k, ci) matches Some(n) && n > cutoff@) {
            let j = choose|j: int| 0 <= j < kn.len() && kn[j] == k;
            let r = without_cutoff[j];
            assert(kn[j] == record_key(r, ci));
            assert(merged_record(ps, ci, r));
            let i = choose|i: int| first_of_group(ps, k, ci, i) && ps[i].path_on_disk == r.project.path_on_disk;
            assert(key_of(ps[i], ci) == k);
            assert(passes_cutoff(group_newest(ps, key_of(ps[i], ci), ci), Some(cutoff)));
            assert(kc.contains(key_of(ps[i], ci)));
        }
    }
    assert forall|a: int, b: int|
        0 <= a < with_cutoff.len() && 0 <= b < without_cutoff.len() && record_key(
            #[trigger] with_cutoff[a],
            ci,
        ) == record_key(#[trigger] without_cutoff[b], ci) implies {
            let x = with_cutoff[a];
            let y = without_cutoff[b];
            &&& x.project.path_on_disk == y.project.path_on_disk
            &&& texts(x.project.names@) == texts(y.project.names@)
            &&& texts(x.project.outlinks@) == texts(y.project.outlinks@)
            &&& texts(x.project.authors@) == texts(y.project.authors@)
            &&& opt_instant(x.newest_branch_activity_at) == opt_instant(y.newest_branch_activity_at)
        } by {
        let x = with_cutoff[a];
        let y = without_cutoff[b];
        let key = record_key(x, ci);
        assert(merged_record(ps, ci, x));
        assert(merged_record(ps, ci, y));
        let ix = choose|i: int| first_of_group(ps, key, ci, i) && ps[i].path_on_disk == x.project.path_on_disk;
        let iy = choose|i: int| first_of_group(ps, key, ci, i) && ps[i].path_on_disk == y.project.path_on_disk;
        lemma_first_of_group_unique(ps, key, ci, ix, iy);
        lemma_sorted_texts_are_unique(texts(x.project.names@), texts(y.project.names@));
        lemma_sorted_texts_are_unique(texts(x.project.outlinks@), texts(y.project.outlinks@));
        lemma_sorted_texts_are_unique(texts(x.project.authors@), texts(y.project.authors@));
    }
}

// ---------------------------------------------------------------------------
// Enrichment runs
// ---------------------------------------------------------------------------

/// Candidates left to start and tasks running after `step`.
pub open spec fn after_enrichment_step(pending: usize, in_flight: usize, step: EnrichmentStep) -> (usize, usize) {
    match step {
        EnrichmentStep::Spawn => ((pending - 1) as usize, (in_flight + 1) as usize),
        EnrichmentStep::JoinOne => (pending, (in_flight - 1) as usize),
        EnrichmentStep::Finish => (pending, in_flight),
    }
}

/// In `states`, the state after `k` is what the step decided at `k` leads
/// to, and that step did not finish the phase.
pub open spec fn enrichment_follows(states: Seq<(usize, usize)>, max_in_flight: Option<usize>, k: int) -> bool {
    let step = enrichment_step(states[k].0, states[k].1, max_in_flight);
    &&& step != EnrichmentStep::Finish
    &&& states[k + 1] == after_enrichment_step(states[k].0, states[k].1, step)
}

/// `states` (candidates left to start, tasks running) is the course of an
/// enrichment phase over `seeds` candidates, driven by
/// [`crate::discovery::next_enrichment_step`].
pub open spec fn is_enrichment_run(states: Seq<(usize, usize)>, seeds: usize, max_in_flight: Option<usize>) -> bool {
    &&& states.len() > 0
    &&& states[0] == (seeds, 0usize)
    &&& forall|k: int| 0 <= k < states.len() - 1 ==> #[trigger] enrichment_follows(states, max_in_flight, k)
}

proof fn lemma_enrichment_run_state(
    states: Seq<(usize, usize)>,
    seeds: usize,
    max_in_flight: Option<usize>,
    k: int,
)
    requires
        is_enrichment_run(states, seeds, max_in_flight),
        max_in_flight != Some(0usize),
        0 <= k < states.len(),
    ensures
        states[k].0 + states[k].1 <= seeds,
        max_in_flight matches Some(m) ==> states[k].1 <= m,
        max_in_flight is None && states[k].0 > 0 ==> states[k].0 + states[k].1 == seeds,
    decreases k,
{
    if k > 0 {
        lemma_enrichment_run_state(states, seeds, max_in_flight, k - 1);
        assert(enrichment_follows(states, max_in_flight, k - 1));
    }
}

/// Over a whole enrichment phase with a bound of `m` tasks, no more than `m`
/// run at any time; without a bound, no task is awaited before every
/// candidate has started. The phase finishes only once every candidate has
/// been started and awaited.
pub proof fn lemma_enrichment_run_respects_bound(
    states: Seq<(usize, usize)>,
    seeds: usize,
    max_in_flight: Option<usize>,
)
    requires
        is_enrichment_run(states, seeds, max_in_flight),
        max_in_flight != Some(0usize),
    ensures
        forall|k: int| 0 <= k < states.len() ==> (max_in_flight matches Some(m) ==> (#[trigger] states[k]).1 <= m),
        forall|k: int|
            0 <= k < states.len() && max_in_flight is None && (#[trigger] states[k]).0 > 0 ==> states[k].0
                + states[k].1 == seeds,
        enrichment_step(states.last().0, states.last().1, max_in_flight) == EnrichmentStep::Finish ==> states.last()
            == (0usize, 0usize),
{
    assert forall|k: int| 0 <= k < states.len() implies (max_in_flight matches Some(m) ==> (#[trigger] states[k]).1 <= m) && (max_in_flight is None && states[k].0 > 0 ==> states[k].0 + states[k].1 == seeds) by {
        lemma_enrichment_run_state(states, seeds, max_in_flight, k);
    }
}

// ---------------------------------------------------------------------------
// Author scans
// ---------------------------------------------------------------------------

/// Commits read so far: those of finished chunks and of the current one.
pub open spec fn commits_read(s: AuthorScan) -> int {
    s.scanned_commits + s.scanned_in_chunk
}

/// `s` after one more commit was read.
pub open spec fn after_commit(s: AuthorScan) -> AuthorScan {
    AuthorScan { scanned_in_chunk: (s.scanned_in_chunk + 1) as usize, ..s }
}

/// Round `k` of an author scan over a history of `commits` commits did not
/// end the scan: it asked again, or it read one more commit that the
/// history still held.
pub open spec fn scan_round_continues(
    scans: Seq<AuthorScan>,
    times: Seq<int>,
    commits: nat,
    config: DiscoveryConfig,
    k: int,
) -> bool {
    let (step, next) = scan_round(scans[k], times[k], config);
    ||| step == AuthorScanStep::Recheck && scans[k + 1] == next
    ||| step == AuthorScanStep::ReadCommit && commits_read(next) < commits && scans[k + 1] == after_commit(next)
}

/// `scans` is the course of a finished author scan over a history of
/// `commits` commits: the state before each round, starting from
/// [`AuthorScan::new`], where round `k` is decided after `times[k]`
/// nanoseconds; every round but the last goes on, and the last one stops or
/// finds the history exhausted.
pub open spec fn is_author_scan(
    scans: Seq<AuthorScan>,
    times: Seq<int>,
    commits: nat,
    config: DiscoveryConfig,
) -> bool {
    &&& scans.len() > 0
    &&& times.len() == scans.len()
    &&& scans[0] == AuthorScan { scanned_commits: 0, scanned_in_chunk: 0, chunk_limit: 0 }
    &&& forall|k: int| 0 <= k < scans.len() ==> #[trigger] times[k] >= 0
    &&& forall|k: int| 0 <= k < scans.len() - 1 ==> #[trigger] scan_round_continues(scans, times, commits, config, k)
    &&& {
        let (step, next) = scan_round(scans.last(), times.last(), config);
        ||| step == AuthorScanStep::Stop
        ||| step == AuthorScanStep::ReadCommit && commits_read(next) == commits
    }
}

/// The commits a finished author scan has read.
pub open spec fn scan_total(scans: Seq<AuthorScan>, times: Seq<int>, config: DiscoveryConfig) -> int {
    commits_read(scan_round(scans.last(), times.last(), config).1)
}

proof fn lemma_author_scan_state(
    scans: Seq<AuthorScan>,
    times: Seq<int>,
    commits: nat,
    config: DiscoveryConfig,
    k: int,
)
    requires
        is_author_scan(scans, times, commits, config),
        commits <= usize::MAX,
        0 <= k < scans.len(),
    ensures
        commits_read(scans[k]) <= commits,
        commits_read(scan_round(scans[k], times[k], config).1) == commits_read(scans[k]),
        config.author_scan_budget@ == 0 ==> scans[k].scanned_commits + scans[k].chunk_limit
            <= config.author_min_commits && scans[k].scanned_in_chunk <= scans[k].chunk_limit,
    decreases k,
{
    if k > 0 {
        lemma_author_scan_state(scans, times, commits, config, k - 1);
        assert(scan_round_continues(scans, times, commits, config, k - 1));
        let prev = scans[k - 1];
        if config.author_scan_budget@ == 0 && prev.scanned_in_chunk >= prev.chunk_limit {
            let scanned = saturating_sum_of(prev);
            if scanned < config.author_min_commits {
                lemma_chunk_limit_respects_minimum(scanned, config);
            }
        }
    }
    let s = scans[k];
    if config.author_scan_budget@ == 0 && s.scanned_in_chunk >= s.chunk_limit {
        let scanned = saturating_sum_of(s);
        if scanned < config.author_min_commits {
            lemma_chunk_limit_respects_minimum(scanned, config);
        }
    }
}

spec fn saturating_sum_of(s: AuthorScan) -> usize {
    crate::discovery::saturating_sum(s.scanned_commits, s.scanned_in_chunk)
}

/// A finished author scan reads at least the configured minimum number of
/// commits, or the whole history where it is shorter, whatever the time
/// budget and however long reading takes; it never reads past the history.
pub proof fn lemma_author_scan_covers_minimum(
    scans: Seq<AuthorScan>,
    times: Seq<int>,
    commits: nat,
    config: DiscoveryConfig,
)
    requires
        is_author_scan(scans, times, commits, config),
        commits <= usize::MAX,
    ensures
        scan_total(scans, times, config) >= if commits < config.author_min_commits {
            commits as int
        } else {
            config.author_min_commits as int
        },
        scan_total(scans, times, config) <= commits,
{
    let last = scans.len() - 1;
    lemma_author_scan_state(scans, times, commits, config, last);
    assert(scans.last() == scans[last]);
    assert(times.last() == times[last]);
}

/// With no time budget, a finished author scan reads exactly the configured
/// minimum number of commits, or the whole history where it is shorter.
pub proof fn lemma_author_scan_without_budget(
    scans: Seq<AuthorScan>,
    times: Seq<int>,
    commits: nat,
    config: DiscoveryConfig,
)
    requires
        is_author_scan(scans, times, commits, config),
        commits <= usize::MAX,
        config.author_scan_budget@ == 0,
    ensures
        scan_total(scans, times, config) == if commits < config.author_min_commits {
            commits as int
        } else {
            config.author_min_commits as int
        },
{
    let last = scans.len() - 1;
    lemma_author_scan_state(scans, times, commits, config, last);
    lemma_author_scan_covers_minimum(scans, times, commits, config);
    assert(scans.last() == scans[last]);
    assert(times.last() == times[last]);
}


/// `gathered` with the signature of a commit added, when it has one.
pub open spec fn with_signature(gathered: Set<Seq<char>>, signature: Option<Seq<char>>) -> Set<Seq<char>> {
    match signature {
        Some(t) => gathered.insert(t),
        None => gathered,
    }
}

/// The authors gathered across round `k`: a round that reads a commit adds
/// its signature (`signatures[i]` for the `i`-th commit of the history, or
/// nothing where it has none); a round that asks again adds nothing.
pub open spec fn gathering_follows(
    scans: Seq<AuthorScan>,
    times: Seq<int>,
    signatures: Seq<Option<Seq<char>>>,
    gathered: Seq<Set<Seq<char>>>,
    config: DiscoveryConfig,
    k: int,
) -> bool {
    let (step, next) = scan_round(scans[k], times[k], config);
    if step == AuthorScanStep::ReadCommit {
        gathered[k + 1] == with_signature(gathered[k], signatures[commits_read(next)])
    } else {
        gathered[k + 1] == gathered[k]
    }
}

/// `gathered` holds the authors known before each round of the finished
/// author scan `scans` over a history whose commits have `signatures`.
pub open spec fn is_author_gathering(
    scans: Seq<AuthorScan>,
    times: Seq<int>,
    signatures: Seq<Option<Seq<char>>>,
    gathered: Seq<Set<Seq<char>>>,
    config: DiscoveryConfig,
) -> bool {
    &&& is_author_scan(scans, times, signatures.len(), config)
    &&& gathered.len() == scans.len()
    &&& forall|k: int|
        0 <= k < scans.len() - 1 ==> #[trigger] gathering_follows(scans, times, signatures, gathered, config, k)
}

/// Some commit among the first `count` has the signature `t`.
pub open spec fn signed_within(signatures: Seq<Option<Seq<char>>>, count: int, t: Seq<char>) -> bool {
    exists|i: int| 0 <= i < count && i < signatures.len() && #[trigger] signatures[i] == Some(t)
}

proof fn lemma_gathered_state(
    scans: Seq<AuthorScan>,
    times: Seq<int>,
    signatures: Seq<Option<Seq<char>>>,
    gathered: Seq<Set<Seq<char>>>,
    config: DiscoveryConfig,
    k: int,
)
    requires
        is_author_gathering(scans, times, signatures, gathered, config),
        signatures.len() <= usize::MAX,
        0 <= k < scans.len(),
    ensures
        forall|t: Seq<char>|
            #[trigger] gathered[k].contains(t) <==> gathered[0].contains(t) || signed_within(
                signatures,
                commits_read(scans[k]),
                t,
            ),
    decreases k,
{
    let commits = signatures.len();
    if k > 0 {
        lemma_gathered_state(scans, times, signatures, gathered, config, k - 1);
        lemma_author_scan_state(scans, times, commits, config, k - 1);
        assert(scan_round_continues(scans, times, commits, config, k - 1));
        assert(gathering_follows(scans, times, signatures, gathered, config, k - 1));
        let (step, next) = scan_round(scans[k - 1], times[k - 1], config);
        let before = commits_read(scans[k - 1]);
        assert forall|t: Seq<char>| #[trigger] gathered[k].contains(t) <==> gathered[0].contains(t)
            || signed_within(signatures, commits_read(scans[k]), t) by {
            if step == AuthorScanStep::ReadCommit {
                assert(commits_read(scans[k]) == before + 1);
                if signed_within(signatures, before + 1, t) && !signed_within(signatures, before, t) {
                    let i = choose|i: int| 0 <= i < before + 1 && i < signatures.len() && #[trigger] signatures[i] == Some(t);
                    assert(i == before);
                }
                if signatures[before] == Some(t) {
                    assert(signed_within(signatures, before + 1, t));
                }
                if signed_within(signatures, before, t) {
                    let i = choose|i: int| 0 <= i < before && i < signatures.len() && #[trigger] signatures[i] == Some(t);
                    assert(signed_within(signatures, before + 1, t));
                }
            } else {
                assert(commits_read(scans[k]) == before);
            }
        }
    }
}

/// A finished author scan gathers exactly the signatures of the commits it
/// read, besides the authors known before; in particular it gathers those
/// of the first `author_min_commits` commits (or of the whole history where
/// it is shorter), whatever the budget. With no time budget, the commits it
/// read are exactly those.
pub proof fn lemma_author_scan_gathers_signatures(
    scans: Seq<AuthorScan>,
    times: Seq<int>,
    signatures: Seq<Option<Seq<char>>>,
    gathered: Seq<Set<Seq<char>>>,
    config: DiscoveryConfig,
)
    requires
        is_author_gathering(scans, times, signatures, gathered, config),
        signatures.len() <= usize::MAX,
    ensures
        forall|t: Seq<char>|
            #[trigger] gathered.last().contains(t) <==> gathered[0].contains(t) || signed_within(
                signatures,
                scan_total(scans, times, config),
                t,
            ),
        forall|i: int|
            0 <= i < signatures.len() && i < config.author_min_commits && #[trigger] signatures[i] is Some
                ==> gathered.last().contains(signatures[i]->0),
        config.author_scan_budget@ == 0 ==> forall|t: Seq<char>|
            #[trigger] gathered.last().contains(t) <==> gathered[0].contains(t) || signed_within(
                signatures,
                config.author_min_commits as int,
                t,
            ),
{
    let commits = signatures.len();
    let last = scans.len() - 1;
    lemma_gathered_state(scans, times, signatures, gathered, config, last);
    lemma_author_scan_state(scans, times, commits, config, last);
    lemma_author_scan_covers_minimum(scans, times, commits, config);
    assert(scans.last() == scans[last]);
    assert(times.last() == times[last]);
    assert(gathered.last() == gathered[last]);
    let total = scan_total(scans, times, config);
    assert(total == commits_read(scans[last]));
    assert forall|i: int|
        0 <= i < signatures.len() && i < config.author_min_commits && #[trigger] signatures[i] is Some
        implies gathered.last().contains(signatures[i]->0) by {
        assert(signed_within(signatures, total, signatures[i]->0));
    }
    if config.author_scan_budget@ == 0 {
        lemma_author_scan_without_budget(scans, times, commits, config);
        assert forall|t: Seq<char>| #[trigger] gathered.last().contains(t) <==> gathered[0].contains(t)
            || signed_within(signatures, config.author_min_commits as int, t) by {
            if signed_within(signatures, config.author_min_commits as int, t) {
                let i = choose|i: int|
                    0 <= i < config.author_min_commits && i < signatures.len() && #[trigger] signatures[i] == Some(t);
                assert(signed_within(signatures, total, t));
            }
            if signed_within(signatures, total, t) {
                let i = choose|i: int| 0 <= i < total && i < signatures.len() && #[trigger] signatures[i] == Some(t);
                assert(signed_within(signatures, config.author_min_commits as int, t));
            }
        }
    }
}

} // verus!
