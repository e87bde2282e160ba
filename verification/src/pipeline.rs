//! One mode's engine, end to end: aggregate the decoded score stream, rank
//! per user, converge the uniqueness filter, truncate, re-converge, flatten.

use vstd::prelude::*;

use crate::aggregate::{ScoreRow, RowV, rows_views, agg_list, aggregate};
use crate::filter::{
    UserV, users_view, group_spec, group_by_user, sort_all_spec, sort_users, sorted_desc,
    lemma_sort_rows_sorted, fix_filter, run_filter, trunc_spec, truncate_all, flatten_spec,
    flatten, converged, fes_view, fe_pair, count_fe, FilteredEntry, FEntryV,
    lemma_post_filter_invariant, lemma_fix_filter_sorted,
};

verus! {

/// The value of one mode's rank & filter engine on its aggregated entries.
pub open spec fn engine_spec(rs: Seq<RowV>) -> Seq<FEntryV> {
    flatten_spec(fix_filter(trunc_spec(fix_filter(sort_all_spec(group_spec(agg_list(rs)))))))
}

/// The population the engine ends with, before flattening.
pub open spec fn final_population(rs: Seq<RowV>) -> Seq<UserV> {
    fix_filter(trunc_spec(fix_filter(sort_all_spec(group_spec(agg_list(rs))))))
}

/// Runs the whole engine on the decoded, pp-keyed score stream. The output
/// is the flattening of a converged population: every output row's
/// `(beatmap, canonical mods)` pair is shared by at least two output rows.
pub fn process_scores(rows: Vec<ScoreRow>) -> (out: Vec<FilteredEntry>)
    ensures
        fes_view(out) == engine_spec(rows_views(rows)),
        converged(final_population(rows_views(rows))),
        forall|k: int|
            0 <= k < fes_view(out).len() ==> count_fe(
                fes_view(out),
                fe_pair(#[trigger] fes_view(out)[k]),
            ) >= 2,
{
    let agg = aggregate(rows);
    let grouped = group_by_user(agg);
    let ranked = sort_users(grouped);
    let conv = run_filter(ranked);
    let cut = truncate_all(conv);
    let fin = run_filter(cut);
    let out = flatten(&fin);
    proof {
        assert forall|k: int| 0 <= k < fes_view(out).len() implies count_fe(
            fes_view(out),
            fe_pair(#[trigger] fes_view(out)[k]),
        ) >= 2 by {
            lemma_post_filter_invariant(users_view(fin), k);
        }
    }
    out
}

/// Ranking invariant: after the per-user sort, every list the engine holds
/// up to truncation is sorted descending by pp, so truncation keeps exactly
/// each user's top entries.
pub proof fn lemma_pre_truncation_ranked(rs: Seq<RowV>)
    ensures
        forall|u: int|
            0 <= u < fix_filter(sort_all_spec(group_spec(agg_list(rs)))).len() ==> sorted_desc(
                (#[trigger] fix_filter(sort_all_spec(group_spec(agg_list(rs))))[u]).entries,
            ),
{
    let g = group_spec(agg_list(rs));
    let ranked = sort_all_spec(g);
    assert forall|u: int| 0 <= u < ranked.len() implies sorted_desc(
        (#[trigger] ranked[u]).entries,
    ) by {
        assert(ranked[u].entries == crate::filter::sort_rows_spec(g[u].entries));
        lemma_sort_rows_sorted(g[u].entries);
    }
    lemma_fix_filter_sorted(ranked);
}

} // verus!
