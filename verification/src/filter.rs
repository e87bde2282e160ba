//! Rank & filter engine: groups aggregated scores by user, ranks each
//! user's list by pp descending, removes map/mod combinations not shared by
//! at least two entries via fixed-point iteration, truncates to the top 100
//! and re-converges.

use vstd::prelude::*;

use crate::rev_vec;
use crate::mods::{Mod, ModV, mods_view, acronyms, mods_key_eq};
use crate::aggregate::{ScoreRow, RowV, row_view, rows_views};
use crate::split::copy_range;

verus! {

/// One user's ranked score list.
#[derive(Debug, Clone, PartialEq, Eq)]
pub struct UserScores {
    pub user_id: u64,
    pub entries: Vec<ScoreRow>,
}

#[verifier::ext_equal]
pub ghost struct UserV {
    pub user_id: u64,
    pub entries: Seq<RowV>,
}

pub open spec fn user_view(u: UserScores) -> UserV {
    UserV { user_id: u.user_id, entries: rows_views(u.entries) }
}

pub open spec fn users_view(v: Vec<UserScores>) -> Seq<UserV> {
    v@.map_values(|u: UserScores| user_view(u))
}

/// Index of the first list owned by `u`, or -1.
pub open spec fn find_user(g: Seq<UserV>, u: u64) -> int
    decreases g.len(),
{
    if g.len() == 0 {
        -1
    } else if g[0].user_id == u {
        0
    } else {
        let r = find_user(g.skip(1), u);
        if r < 0 {
            -1
        } else {
            1 + r
        }
    }
}

pub proof fn lemma_find_user_char(g: Seq<UserV>, u: u64)
    ensures
        find_user(g, u) == -1 ==> forall|i: int| 0 <= i < g.len() ==> (#[trigger] g[i]).user_id
            != u,
        find_user(g, u) != -1 ==> 0 <= find_user(g, u) < g.len() && g[find_user(g, u)].user_id
            == u && forall|i: int| 0 <= i < find_user(g, u) ==> (#[trigger] g[i]).user_id != u,
    decreases g.len(),
{
    if g.len() > 0 && g[0].user_id != u {
        lemma_find_user_char(g.skip(1), u);
        assert forall|i: int| 1 <= i < g.len() implies g.skip(1)[i - 1] == g[i] by {}
    }
}

pub proof fn lemma_find_user_at(g: Seq<UserV>, u: u64, m: int)
    requires
        0 <= m < g.len(),
        g[m].user_id == u,
        forall|j: int| 0 <= j < m ==> (#[trigger] g[j]).user_id != u,
    ensures
        find_user(g, u) == m,
    decreases g.len(),
{
    if m > 0 {
        assert forall|j: int| 0 <= j < m - 1 implies (#[trigger] g.skip(1)[j]).user_id != u by {
            assert(g.skip(1)[j] == g[j + 1]);
        }
        assert(g.skip(1)[m - 1] == g[m]);
        lemma_find_user_at(g.skip(1), u, m - 1);
    }
}

/// The per-user partition of the aggregated entries, in first-appearance
/// order; each user's entries keep their aggregation order.
pub open spec fn group_spec(rows: Seq<RowV>) -> Seq<UserV>
    decreases rows.len(),
{
    if rows.len() == 0 {
        Seq::empty()
    } else {
        let prev = group_spec(rows.drop_last());
        let r = rows.last();
        let idx = find_user(prev, r.user_id);
        if idx < 0 {
            prev.push(UserV { user_id: r.user_id, entries: seq![r] })
        } else {
            prev.update(idx, UserV { user_id: r.user_id, entries: prev[idx].entries.push(r) })
        }
    }
}

fn find_user_exec(lists: &Vec<UserScores>, u: u64) -> (r: Option<usize>)
    ensures
        match r {
            Some(i) => find_user(users_view(*lists), u) == i as int && i < lists@.len(),
            None => find_user(users_view(*lists), u) == -1,
        },
{
    let ghost g = users_view(*lists);
    let mut i: usize = 0;
    while i < lists.len()
        invariant
            g == users_view(*lists),
            i <= lists@.len(),
            forall|j: int| 0 <= j < i ==> (#[trigger] g[j]).user_id != u,
        decreases lists.len() - i,
    {
        if lists[i].user_id == u {
            proof {
                lemma_find_user_at(g, u, i as int);
            }
            return Some(i);
        }
        i += 1;
    }
    proof {
        lemma_find_user_char(g, u);
        if find_user(g, u) != -1 {
            assert(g[find_user(g, u)].user_id == u);
            assert(false);
        }
    }
    None
}

/// Partitions the aggregated entries by user.
pub fn group_by_user(rows: Vec<ScoreRow>) -> (out: Vec<UserScores>)
    ensures
        users_view(out) == group_spec(rows_views(rows)),
{
    let ghost rwv = rows_views(rows);
    let mut rev = rev_vec(rows);
    let mut out: Vec<UserScores> = Vec::new();
    proof {
        assert forall|t: int| 0 <= t < rev@.len() implies #[trigger] rows_views(rev)[t]
            == rwv[rwv.len() - 1 - t] by {}
        assert(rows_views(rev).reverse() =~= rwv.skip(0));
        assert(rwv.take(0) =~= Seq::<RowV>::empty());
        assert(users_view(out) =~= group_spec(rwv.take(0)));
    }
    while rev.len() > 0
        invariant
            rows_views(rev).reverse() =~= rwv.skip(rwv.len() - rows_views(rev).len()),
            rows_views(rev).len() <= rwv.len(),
            users_view(out) == group_spec(rwv.take(rwv.len() - rows_views(rev).len())),
        decreases rev.len(),
    {
        let ghost rv = rows_views(rev);
        let ghost kk = rwv.len() - rv.len();
        let x = rev.pop().unwrap();
        proof {
            assert(row_view(x) == rv.last());
            assert(rv.last() == rv.reverse()[0]);
            assert(rv.reverse()[0] == rwv[kk]);
            assert(rows_views(rev) =~= rv.drop_last());
            assert(rv.drop_last().reverse() =~= rv.reverse().skip(1));
            assert(rv.reverse() == rwv.skip(kk));
            assert(rv.reverse().skip(1) =~= rwv.skip(kk + 1));
            assert(rows_views(rev).reverse() =~= rwv.skip(kk + 1));
            assert(rwv.take(kk + 1).drop_last() =~= rwv.take(kk));
            assert(rwv.take(kk + 1).last() == rwv[kk]);
        }
        let ghost prev = users_view(out);
        match find_user_exec(&out, x.user_id) {
            None => {
                let mut entries: Vec<ScoreRow> = Vec::new();
                let uid = x.user_id;
                entries.push(x);
                proof {
                    assert(rows_views(entries) =~= seq![rwv[kk]]);
                }
                out.push(UserScores { user_id: uid, entries });
                proof {
                    assert(users_view(out) =~= prev.push(
                        UserV { user_id: rwv[kk].user_id, entries: seq![rwv[kk]] },
                    ));
                    assert(users_view(out) == group_spec(rwv.take(kk + 1)));
                }
            },
            Some(idx) => {
                let mut bucket = out.remove(idx);
                let ghost bv = user_view(bucket);
                bucket.entries.push(x);
                proof {
                    assert(user_view(bucket) =~= UserV {
                        user_id: bv.user_id,
                        entries: bv.entries.push(rwv[kk]),
                    });
                }
                out.insert(idx, bucket);
                proof {
                    lemma_find_user_char(prev, rwv[kk].user_id);
                    assert(bv == prev[idx as int]);
                    assert(bv.user_id == rwv[kk].user_id);
                    assert(users_view(out) =~= prev.update(
                        idx as int,
                        UserV { user_id: rwv[kk].user_id, entries: bv.entries.push(rwv[kk]) },
                    ));
                    assert(users_view(out) == group_spec(rwv.take(kk + 1)));
                }
            },
        }
    }
    proof {
        assert(rwv.take(rwv.len() as int) =~= rwv);
    }
    out
}

/// First index whose entry ranks strictly below `pp`; a later entry with
/// equal pp keeps its place behind earlier ones.
pub open spec fn rank_pos(s: Seq<RowV>, pp: u64) -> int
    decreases s.len(),
{
    if s.len() == 0 {
        0
    } else if s[0].pp >= pp {
        1 + rank_pos(s.skip(1), pp)
    } else {
        0
    }
}

pub open spec fn rank_insert(s: Seq<RowV>, r: RowV) -> Seq<RowV> {
    let p = rank_pos(s, r.pp);
    s.take(p) + seq![r] + s.skip(p)
}

/// One user's list ranked by pp descending, stable on exact ties.
pub open spec fn sort_rows_spec(s: Seq<RowV>) -> Seq<RowV>
    decreases s.len(),
{
    if s.len() == 0 {
        Seq::empty()
    } else {
        rank_insert(sort_rows_spec(s.drop_last()), s.last())
    }
}

pub open spec fn sorted_desc(s: Seq<RowV>) -> bool {
    forall|i: int, j: int| 0 <= i < j < s.len() ==> s[i].pp >= s[j].pp
}

pub proof fn lemma_rank_pos_bounds(s: Seq<RowV>, pp: u64)
    ensures
        0 <= rank_pos(s, pp) <= s.len(),
    decreases s.len(),
{
    if s.len() > 0 && s[0].pp >= pp {
        lemma_rank_pos_bounds(s.skip(1), pp);
    }
}

pub proof fn lemma_rank_pos_split(s: Seq<RowV>, pp: u64)
    ensures
        forall|i: int| 0 <= i < rank_pos(s, pp) ==> (#[trigger] s[i]).pp >= pp,
        rank_pos(s, pp) < s.len() ==> s[rank_pos(s, pp)].pp < pp,
    decreases s.len(),
{
    lemma_rank_pos_bounds(s, pp);
    if s.len() > 0 {
        lemma_rank_pos_bounds(s.skip(1), pp);
        lemma_rank_pos_split(s.skip(1), pp);
        if s[0].pp >= pp {
            let p = rank_pos(s, pp);
            assert forall|i: int| 0 <= i < p implies (#[trigger] s[i]).pp >= pp by {
                if i > 0 {
                    assert(s.skip(1)[i - 1] == s[i]);
                }
            }
            if p < s.len() {
                assert(s.skip(1)[p - 1] == s[p]);
            }
        }
    }
}

/// Inserting at the ranked position keeps a descending list descending.
pub proof fn lemma_rank_insert_sorted(s: Seq<RowV>, r: RowV)
    requires
        sorted_desc(s),
    ensures
        sorted_desc(rank_insert(s, r)),
{
    let p = rank_pos(s, r.pp);
    lemma_rank_pos_bounds(s, r.pp);
    lemma_rank_pos_split(s, r.pp);
    let t = rank_insert(s, r);
    assert forall|i: int, j: int| 0 <= i < j < t.len() implies t[i].pp >= t[j].pp by {
        if p < s.len() {
            assert(s[p].pp < r.pp);
        }
        if i < p && j == p {
            assert(t[i] == s[i] && t[j] == r);
        } else if i < p && j > p {
            assert(t[i] == s[i] && t[j] == s[j - 1]);
        } else if i == p && j > p {
            assert(t[i] == r && t[j] == s[j - 1]);
            if j - 1 > p {
                assert(s[p].pp >= s[j - 1].pp);
            }
        } else if i > p && j > p {
            assert(t[i] == s[i - 1] && t[j] == s[j - 1]);
        } else if i < p && j < p {
            assert(t[i] == s[i] && t[j] == s[j]);
        } else {
            assert(false);
        }
    }
}

pub proof fn lemma_sort_rows_sorted(s: Seq<RowV>)
    ensures
        sorted_desc(sort_rows_spec(s)),
    decreases s.len(),
{
    if s.len() > 0 {
        lemma_sort_rows_sorted(s.drop_last());
        lemma_rank_insert_sorted(sort_rows_spec(s.drop_last()), s.last());
    }
}

fn find_rank_pos(out: &Vec<ScoreRow>, pp: u64) -> (p: usize)
    ensures
        p == rank_pos(rows_views(*out), pp),
{
    let ghost s = rows_views(*out);
    let mut i: usize = 0;
    proof {
        lemma_rank_pos_bounds(s, pp);
        assert(s.skip(0) =~= s);
    }
    while i < out.len()
        invariant
            s == rows_views(*out),
            i <= out.len(),
            out.len() == s.len(),
            rank_pos(s, pp) == i + rank_pos(s.skip(i as int), pp),
        decreases out.len() - i,
    {
        let ghost rest = s.skip(i as int);
        assert(rest[0] == s[i as int]);
        if !(out[i].pp >= pp) {
            assert(rank_pos(rest, pp) == 0);
            return i;
        }
        proof {
            assert(rest.skip(1) =~= s.skip(i + 1));
        }
        i += 1;
    }
    proof {
        assert(s.skip(i as int).len() == 0);
    }
    i
}

/// Ranks one user's entries by pp descending, stably.
pub fn sort_by_pp(entries: Vec<ScoreRow>) -> (out: Vec<ScoreRow>)
    ensures
        rows_views(out) == sort_rows_spec(rows_views(entries)),
{
    let ghost orig = rows_views(entries);
    let mut rev = rev_vec(entries);
    let mut out: Vec<ScoreRow> = Vec::new();
    proof {
        assert forall|t: int| 0 <= t < rev@.len() implies #[trigger] rows_views(rev)[t]
            == orig[orig.len() - 1 - t] by {}
        assert(rows_views(rev).reverse() =~= orig.skip(0));
        assert(orig.take(0) =~= Seq::<RowV>::empty());
        assert(rows_views(out) =~= sort_rows_spec(orig.take(0)));
    }
    while rev.len() > 0
        invariant
            rows_views(rev).reverse() =~= orig.skip(orig.len() - rows_views(rev).len()),
            rows_views(rev).len() <= orig.len(),
            rows_views(out) == sort_rows_spec(orig.take(orig.len() - rows_views(rev).len())),
        decreases rev.len(),
    {
        let ghost rv = rows_views(rev);
        let ghost kk = orig.len() - rv.len();
        let x = rev.pop().unwrap();
        proof {
            assert(row_view(x) == rv.last());
            assert(rv.last() == rv.reverse()[0]);
            assert(rv.reverse()[0] == orig[kk]);
            assert(rows_views(rev) =~= rv.drop_last());
            assert(rv.drop_last().reverse() =~= rv.reverse().skip(1));
            assert(rv.reverse() == orig.skip(kk));
            assert(rv.reverse().skip(1) =~= orig.skip(kk + 1));
            assert(rows_views(rev).reverse() =~= orig.skip(kk + 1));
            assert(orig.take(kk + 1).drop_last() =~= orig.take(kk));
            assert(orig.take(kk + 1).last() == orig[kk]);
        }
        let p = find_rank_pos(&out, x.pp);
        proof {
            lemma_rank_pos_bounds(rows_views(out), x.pp);
        }
        let ghost prev = rows_views(out);
        out.insert(p, x);
        proof {
            assert(rows_views(out) =~= rank_insert(prev, orig[kk]));
            assert(rows_views(out) == sort_rows_spec(orig.take(kk + 1)));
        }
    }
    proof {
        assert(orig.take(orig.len() as int) =~= orig);
    }
    out
}

/// Every user's list ranked by pp descending.
pub open spec fn sort_all_spec(g: Seq<UserV>) -> Seq<UserV> {
    g.map_values(|uv: UserV| UserV { user_id: uv.user_id, entries: sort_rows_spec(uv.entries) })
}

/// Ranks every user's list.
pub fn sort_users(lists: Vec<UserScores>) -> (out: Vec<UserScores>)
    ensures
        users_view(out) == sort_all_spec(users_view(lists)),
{
    let ghost orig = users_view(lists);
    let mut rev = rev_vec(lists);
    let mut out: Vec<UserScores> = Vec::new();
    proof {
        assert forall|t: int| 0 <= t < rev@.len() implies #[trigger] users_view(rev)[t]
            == orig[orig.len() - 1 - t] by {}
        assert(users_view(rev).reverse() =~= orig.skip(0));
        assert(users_view(out) =~= sort_all_spec(orig.take(0)));
    }
    while rev.len() > 0
        invariant
            users_view(rev).reverse() =~= orig.skip(orig.len() - users_view(rev).len()),
            users_view(rev).len() <= orig.len(),
            users_view(out) == sort_all_spec(orig.take(orig.len() - users_view(rev).len())),
        decreases rev.len(),
    {
        let ghost rv = users_view(rev);
        let ghost kk = orig.len() - rv.len();
        let x = rev.pop().unwrap();
        proof {
            assert(user_view(x) == rv.last());
            assert(rv.last() == rv.reverse()[0]);
            assert(rv.reverse()[0] == orig[kk]);
            assert(users_view(rev) =~= rv.drop_last());
            assert(rv.drop_last().reverse() =~= rv.reverse().skip(1));
            assert(rv.reverse() == orig.skip(kk));
            assert(rv.reverse().skip(1) =~= orig.skip(kk + 1));
            assert(users_view(rev).reverse() =~= orig.skip(kk + 1));
        }
        let uid = x.user_id;
        let sorted = sort_by_pp(x.entries);
        out.push(UserScores { user_id: uid, entries: sorted });
        proof {
            assert(users_view(out) =~= sort_all_spec(orig.take(kk)).push(
                UserV { user_id: orig[kk].user_id, entries: sort_rows_spec(orig[kk].entries) },
            ));
            assert(orig.take(kk + 1) =~= orig.take(kk).push(orig[kk]));
            assert(sort_all_spec(orig.take(kk + 1)) =~= sort_all_spec(orig.take(kk)).push(
                UserV { user_id: orig[kk].user_id, entries: sort_rows_spec(orig[kk].entries) },
            ));
        }
    }
    proof {
        assert(orig.take(orig.len() as int) =~= orig);
    }
    out
}

} // verus!

verus! {

/// The grouping key of one entry: its beatmap and the acronyms of its
/// canonical mods.
pub type PairV = (u64, Seq<Seq<u8>>);

pub open spec fn pair_of(r: RowV) -> PairV {
    (r.beatmap_id, acronyms(r.mods))
}

/// How many entries of one list share the pair.
pub open spec fn count_in(s: Seq<RowV>, p: PairV) -> nat
    decreases s.len(),
{
    if s.len() == 0 {
        0
    } else {
        (if pair_of(s[0]) == p {
            1nat
        } else {
            0nat
        }) + count_in(s.skip(1), p)
    }
}

/// How many entries of the whole population share the pair.
pub open spec fn count_pair(g: Seq<UserV>, p: PairV) -> nat
    decreases g.len(),
{
    if g.len() == 0 {
        0
    } else {
        count_in(g[0].entries, p) + count_pair(g.skip(1), p)
    }
}

pub proof fn lemma_count_in_snoc(s: Seq<RowV>, x: RowV, p: PairV)
    ensures
        count_in(s.push(x), p) == count_in(s, p) + (if pair_of(x) == p {
            1nat
        } else {
            0nat
        }),
    decreases s.len(),
{
    if s.len() == 0 {
        assert(s.push(x)[0] == x);
        assert(s.push(x).skip(1) =~= Seq::<RowV>::empty());
        assert(count_in(Seq::<RowV>::empty(), p) == 0);
        assert(count_in(s, p) == 0);
        assert(count_in(s.push(x), p) == (if pair_of(x) == p {
            1nat
        } else {
            0nat
        }) + count_in(s.push(x).skip(1), p));
    } else {
        assert(s.push(x)[0] == s[0]);
        assert(s.push(x).skip(1) =~= s.skip(1).push(x));
        lemma_count_in_snoc(s.skip(1), x, p);
        assert(count_in(s.push(x), p) == (if pair_of(s[0]) == p {
            1nat
        } else {
            0nat
        }) + count_in(s.skip(1).push(x), p));
        assert(count_in(s, p) == (if pair_of(s[0]) == p {
            1nat
        } else {
            0nat
        }) + count_in(s.skip(1), p));
    }
}

pub proof fn lemma_count_pair_snoc(g: Seq<UserV>, uv: UserV, p: PairV)
    ensures
        count_pair(g.push(uv), p) == count_pair(g, p) + count_in(uv.entries, p),
    decreases g.len(),
{
    if g.len() == 0 {
        assert(g.push(uv)[0] == uv);
        assert(g.push(uv).skip(1) =~= Seq::<UserV>::empty());
        assert(count_pair(Seq::<UserV>::empty(), p) == 0);
        assert(count_pair(g, p) == 0);
        assert(count_pair(g.push(uv), p) == count_in(uv.entries, p) + count_pair(
            g.push(uv).skip(1),
            p,
        ));
    } else {
        assert(g.push(uv)[0] == g[0]);
        assert(g.push(uv).skip(1) =~= g.skip(1).push(uv));
        lemma_count_pair_snoc(g.skip(1), uv, p);
        assert(count_pair(g.push(uv), p) == count_in(g[0].entries, p) + count_pair(
            g.skip(1).push(uv),
            p,
        ));
        assert(count_pair(g, p) == count_in(g[0].entries, p) + count_pair(g.skip(1), p));
    }
}

pub open spec fn min2(n: nat) -> nat {
    if n >= 2 {
        2
    } else {
        n
    }
}

/// Whether at least two entries of the current population share the pair.
pub fn pair_shared(lists: &Vec<UserScores>, b: u64, mods: &Vec<Mod>) -> (r: bool)
    ensures
        r == (count_pair(users_view(*lists), (b, acronyms(mods_view(*mods)))) >= 2),
{
    let ghost g = users_view(*lists);
    let ghost p: PairV = (b, acronyms(mods_view(*mods)));
    let mut c: u8 = 0;
    let mut ui: usize = 0;
    proof {
        assert(g.take(0) =~= Seq::<UserV>::empty());
    }
    while ui < lists.len()
        invariant
            g == users_view(*lists),
            p == (b, acronyms(mods_view(*mods))),
            ui <= lists@.len(),
            c == min2(count_pair(g.take(ui as int), p)),
        decreases lists.len() - ui,
    {
        let mut ei: usize = 0;
        proof {
            assert(g[ui as int].entries.take(0) =~= Seq::<RowV>::empty());
        }
        while ei < lists[ui].entries.len()
            invariant
                g == users_view(*lists),
                p == (b, acronyms(mods_view(*mods))),
                ui < lists@.len(),
                ei <= g[ui as int].entries.len(),
                g[ui as int].entries.len() == lists@[ui as int].entries@.len(),
                c == min2(
                    count_pair(g.take(ui as int), p) + count_in(
                        g[ui as int].entries.take(ei as int),
                        p,
                    ),
                ),
            decreases lists@[ui as int].entries@.len() - ei,
        {
            let ghost erow = g[ui as int].entries[ei as int];
            let same_map = lists[ui].entries[ei].beatmap_id == b;
            let same_mods = mods_key_eq(&lists[ui].entries[ei].mods, mods);
            proof {
                assert(erow == row_view(lists@[ui as int].entries@[ei as int]));
                assert((pair_of(erow) == p) == (same_map && same_mods));
                lemma_count_in_snoc(g[ui as int].entries.take(ei as int), erow, p);
                assert(g[ui as int].entries.take(ei + 1) =~= g[ui as int].entries.take(
                    ei as int,
                ).push(erow));
            }
            if same_map && same_mods {
                if c < 2 {
                    c += 1;
                }
            }
            ei += 1;
        }
        proof {
            assert(g[ui as int].entries.take(g[ui as int].entries.len() as int) =~= g[
                ui as int
            ].entries);
            lemma_count_pair_snoc(g.take(ui as int), g[ui as int], p);
            assert(g.take(ui + 1) =~= g.take(ui as int).push(g[ui as int]));
        }
        ui += 1;
    }
    proof {
        assert(g.take(g.len() as int) =~= g);
    }
    c >= 2
}

/// The entries of one list whose pair at least two entries of the
/// population `w` share, in their original order.
pub open spec fn keep2(s: Seq<RowV>, w: Seq<UserV>) -> Seq<RowV>
    decreases s.len(),
{
    if s.len() == 0 {
        Seq::empty()
    } else {
        let rest = keep2(s.skip(1), w);
        if count_pair(w, pair_of(s[0])) >= 2 {
            seq![s[0]] + rest
        } else {
            rest
        }
    }
}

pub proof fn lemma_keep2_snoc(s: Seq<RowV>, x: RowV, w: Seq<UserV>)
    ensures
        keep2(s.push(x), w) == if count_pair(w, pair_of(x)) >= 2 {
            keep2(s, w).push(x)
        } else {
            keep2(s, w)
        },
    decreases s.len(),
{
    if s.len() == 0 {
        assert(s.push(x)[0] == x);
        assert(s.push(x).skip(1) =~= Seq::<RowV>::empty());
        assert(keep2(Seq::<RowV>::empty(), w) =~= Seq::<RowV>::empty());
        assert(keep2(s, w) =~= Seq::<RowV>::empty());
        if count_pair(w, pair_of(x)) >= 2 {
            assert(keep2(s.push(x), w) == seq![x] + keep2(s.push(x).skip(1), w));
            assert(seq![x] + Seq::<RowV>::empty() =~= keep2(s, w).push(x));
        } else {
            assert(keep2(s.push(x), w) == keep2(s.push(x).skip(1), w));
        }
    } else {
        assert(s.push(x)[0] == s[0]);
        assert(s.push(x).skip(1) =~= s.skip(1).push(x));
        lemma_keep2_snoc(s.skip(1), x, w);
        if count_pair(w, pair_of(s[0])) >= 2 {
            assert(keep2(s.push(x), w) == seq![s[0]] + keep2(s.skip(1).push(x), w));
            assert(keep2(s, w) == seq![s[0]] + keep2(s.skip(1), w));
            if count_pair(w, pair_of(x)) >= 2 {
                assert(seq![s[0]] + keep2(s.skip(1), w).push(x) =~= (seq![s[0]] + keep2(
                    s.skip(1),
                    w,
                )).push(x));
            }
        } else {
            assert(keep2(s.push(x), w) == keep2(s.skip(1).push(x), w));
            assert(keep2(s, w) == keep2(s.skip(1), w));
        }
    }
}

pub proof fn lemma_keep2_len(s: Seq<RowV>, w: Seq<UserV>)
    ensures
        keep2(s, w).len() <= s.len(),
    decreases s.len(),
{
    if s.len() > 0 {
        lemma_keep2_len(s.skip(1), w);
    }
}

/// A list that keeps its length under the filter is untouched, and every
/// one of its entries is shared.
pub proof fn lemma_keep2_len_id(s: Seq<RowV>, w: Seq<UserV>)
    requires
        keep2(s, w).len() == s.len(),
    ensures
        keep2(s, w) == s,
        forall|i: int| 0 <= i < s.len() ==> count_pair(w, pair_of(#[trigger] s[i])) >= 2,
    decreases s.len(),
{
    if s.len() > 0 {
        lemma_keep2_len(s.skip(1), w);
        if !(count_pair(w, pair_of(s[0])) >= 2) {
            assert(false);
        } else {
            assert(keep2(s, w) == seq![s[0]] + keep2(s.skip(1), w));
            lemma_keep2_len_id(s.skip(1), w);
            assert(keep2(s, w) =~= s);
            assert forall|i: int| 0 <= i < s.len() implies count_pair(
                w,
                pair_of(#[trigger] s[i]),
            ) >= 2 by {
                if i > 0 {
                    assert(s.skip(1)[i - 1] == s[i]);
                }
            }
        }
    }
}

/// A converged list passes the filter whole.
pub proof fn lemma_keep2_id(s: Seq<RowV>, w: Seq<UserV>)
    requires
        forall|i: int| 0 <= i < s.len() ==> count_pair(w, pair_of(#[trigger] s[i])) >= 2,
    ensures
        keep2(s, w) == s,
    decreases s.len(),
{
    if s.len() > 0 {
        assert forall|i: int| 0 <= i < s.skip(1).len() implies count_pair(
            w,
            pair_of(#[trigger] s.skip(1)[i]),
        ) >= 2 by {
            assert(s.skip(1)[i] == s[i + 1]);
        }
        lemma_keep2_id(s.skip(1), w);
        assert(keep2(s, w) =~= s);
    }
}

pub proof fn lemma_keep2_bound(s: Seq<RowV>, w: Seq<UserV>, pp: u64)
    requires
        forall|i: int| 0 <= i < s.len() ==> (#[trigger] s[i]).pp <= pp,
    ensures
        forall|k: int| 0 <= k < keep2(s, w).len() ==> (#[trigger] keep2(s, w)[k]).pp <= pp,
    decreases s.len(),
{
    if s.len() > 0 {
        assert forall|i: int| 0 <= i < s.skip(1).len() implies (#[trigger] s.skip(1)[i]).pp
            <= pp by {
            assert(s.skip(1)[i] == s[i + 1]);
        }
        lemma_keep2_bound(s.skip(1), w, pp);
        let t = keep2(s, w);
        let rest = keep2(s.skip(1), w);
        assert forall|k: int| 0 <= k < t.len() implies (#[trigger] t[k]).pp <= pp by {
            if count_pair(w, pair_of(s[0])) >= 2 {
                if k == 0 {
                    assert(t[k] == s[0]);
                } else {
                    assert(t[k] == rest[k - 1]);
                }
            } else {
                assert(t[k] == rest[k]);
            }
        }
    }
}

/// Filtering keeps a ranked list ranked: the survivors are a subsequence.
pub proof fn lemma_keep2_sorted(s: Seq<RowV>, w: Seq<UserV>)
    requires
        sorted_desc(s),
    ensures
        sorted_desc(keep2(s, w)),
    decreases s.len(),
{
    if s.len() > 0 {
        assert forall|i: int, j: int| 0 <= i < j < s.skip(1).len() implies (#[trigger] s.skip(
            1,
        )[i]).pp >= (#[trigger] s.skip(1)[j]).pp by {
            assert(s.skip(1)[i] == s[i + 1] && s.skip(1)[j] == s[j + 1]);
        }
        lemma_keep2_sorted(s.skip(1), w);
        assert forall|i: int| 0 <= i < s.skip(1).len() implies (#[trigger] s.skip(1)[i]).pp
            <= s[0].pp by {
            assert(s.skip(1)[i] == s[i + 1]);
        }
        lemma_keep2_bound(s.skip(1), w, s[0].pp);
        if count_pair(w, pair_of(s[0])) >= 2 {
            let t = keep2(s, w);
            let rest = keep2(s.skip(1), w);
            assert forall|i: int, j: int| 0 <= i < j < t.len() implies t[i].pp >= t[j].pp by {
                if i == 0 {
                    assert(t[j] == rest[j - 1]);
                } else {
                    assert(t[i] == rest[i - 1] && t[j] == rest[j - 1]);
                }
            }
        }
    }
}

/// One filter round of every list of `g`, with the pair counts taken over
/// the snapshot `w`.
pub open spec fn apply_keep(g: Seq<UserV>, w: Seq<UserV>) -> Seq<UserV> {
    g.map_values(|uv: UserV| UserV { user_id: uv.user_id, entries: keep2(uv.entries, w) })
}

/// One round of the fixed-point uniqueness filter: the counts are computed
/// on the round's own input, then every unshared entry is removed at once.
pub open spec fn filter_round_spec(g: Seq<UserV>) -> Seq<UserV> {
    apply_keep(g, g)
}

pub open spec fn total_len(g: Seq<UserV>) -> nat
    decreases g.len(),
{
    if g.len() == 0 {
        0
    } else {
        g[0].entries.len() + total_len(g.skip(1))
    }
}

pub proof fn lemma_apply_keep_le(g: Seq<UserV>, w: Seq<UserV>)
    ensures
        total_len(apply_keep(g, w)) <= total_len(g),
    decreases g.len(),
{
    if g.len() > 0 {
        assert(apply_keep(g, w)[0].entries == keep2(g[0].entries, w));
        lemma_keep2_len(g[0].entries, w);
        assert(apply_keep(g, w).skip(1) =~= apply_keep(g.skip(1), w));
        lemma_apply_keep_le(g.skip(1), w);
    }
}

/// A round that removes nothing by count leaves the population exactly as
/// it was, and every surviving entry's pair is shared.
pub proof fn lemma_apply_keep_eq(g: Seq<UserV>, w: Seq<UserV>)
    requires
        total_len(apply_keep(g, w)) == total_len(g),
    ensures
        apply_keep(g, w) == g,
        forall|u: int, i: int|
            0 <= u < g.len() && 0 <= i < g[u].entries.len() ==> count_pair(
                w,
                pair_of(#[trigger] g[u].entries[i]),
            ) >= 2,
    decreases g.len(),
{
    if g.len() > 0 {
        assert(apply_keep(g, w)[0].entries == keep2(g[0].entries, w));
        lemma_keep2_len(g[0].entries, w);
        assert(apply_keep(g, w).skip(1) =~= apply_keep(g.skip(1), w));
        lemma_apply_keep_le(g.skip(1), w);
        assert(total_len(apply_keep(g, w)) == keep2(g[0].entries, w).len() + total_len(
            apply_keep(g.skip(1), w),
        ));
        assert(total_len(g) == g[0].entries.len() + total_len(g.skip(1)));
        assert(keep2(g[0].entries, w).len() == g[0].entries.len());
        lemma_keep2_len_id(g[0].entries, w);
        lemma_apply_keep_eq(g.skip(1), w);
        assert forall|u: int| 0 <= u < g.len() implies #[trigger] apply_keep(g, w)[u]
            == g[u] by {
            if u == 0 {
                assert(apply_keep(g, w)[0] == UserV {
                    user_id: g[0].user_id,
                    entries: keep2(g[0].entries, w),
                });
            } else {
                assert(apply_keep(g, w)[u] == apply_keep(g, w).skip(1)[u - 1]);
                assert(apply_keep(g.skip(1), w) == g.skip(1));
                assert(g.skip(1)[u - 1] == g[u]);
            }
        }
        assert(apply_keep(g, w) =~= g);
        assert forall|u: int, i: int|
            0 <= u < g.len() && 0 <= i < g[u].entries.len() implies count_pair(
            w,
            pair_of(#[trigger] g[u].entries[i]),
        ) >= 2 by {
            if u > 0 {
                assert(g.skip(1)[u - 1] == g[u]);
            }
        }
    }
}

/// The post-filter invariant: every surviving entry's `(beatmap, mods)`
/// pair is attested by at least two entries of the surviving population.
pub open spec fn converged(g: Seq<UserV>) -> bool {
    forall|u: int, i: int|
        0 <= u < g.len() && 0 <= i < g[u].entries.len() ==> count_pair(
            g,
            pair_of(#[trigger] g[u].entries[i]),
        ) >= 2
}

/// A population is a fixed point of the filter exactly when it is
/// converged.
pub proof fn lemma_converged_iff(g: Seq<UserV>)
    ensures
        (filter_round_spec(g) == g) == converged(g),
{
    if converged(g) {
        assert forall|u: int| 0 <= u < g.len() implies #[trigger] filter_round_spec(g)[u]
            == g[u] by {
            lemma_keep2_id(g[u].entries, g);
        }
        assert(filter_round_spec(g) =~= g);
    }
    if filter_round_spec(g) == g {
        assert(total_len(filter_round_spec(g)) == total_len(g));
        lemma_apply_keep_eq(g, g);
    }
}

/// Filter idempotence: one more round applied to an already-converged
/// population removes nothing.
pub proof fn lemma_filter_idempotent(g: Seq<UserV>)
    requires
        converged(g),
    ensures
        filter_round_spec(g) == g,
{
    lemma_converged_iff(g);
}

/// The fixed point the filter converges to: rounds are applied until one
/// removes nothing.
pub open spec fn fix_filter(g: Seq<UserV>) -> Seq<UserV>
    decreases total_len(g),
    via fix_filter_dec
{
    if filter_round_spec(g) == g {
        g
    } else {
        fix_filter(filter_round_spec(g))
    }
}

#[via_fn]
proof fn fix_filter_dec(g: Seq<UserV>) {
    if filter_round_spec(g) != g {
        lemma_apply_keep_le(g, g);
        if total_len(filter_round_spec(g)) == total_len(g) {
            lemma_apply_keep_eq(g, g);
        }
    }
}

/// What the filter reaches is converged, and a further round is identity.
pub proof fn lemma_fix_filter_converged(g: Seq<UserV>)
    ensures
        converged(fix_filter(g)),
        filter_round_spec(fix_filter(g)) == fix_filter(g),
    decreases total_len(g),
{
    if filter_round_spec(g) == g {
        lemma_converged_iff(g);
    } else {
        lemma_apply_keep_le(g, g);
        if total_len(filter_round_spec(g)) == total_len(g) {
            lemma_apply_keep_eq(g, g);
        }
        lemma_fix_filter_converged(filter_round_spec(g));
    }
}

/// The filter never reorders: ranked lists stay ranked all the way to the
/// fixed point, and each user keeps their place and identity.
pub proof fn lemma_fix_filter_sorted(g: Seq<UserV>)
    requires
        forall|u: int| 0 <= u < g.len() ==> sorted_desc((#[trigger] g[u]).entries),
    ensures
        fix_filter(g).len() == g.len(),
        forall|u: int|
            0 <= u < g.len() ==> sorted_desc((#[trigger] fix_filter(g)[u]).entries) && fix_filter(
                g,
            )[u].user_id == g[u].user_id,
    decreases total_len(g),
{
    let next = filter_round_spec(g);
    assert forall|u: int| 0 <= u < g.len() implies sorted_desc((#[trigger] next[u]).entries)
        && next[u].user_id == g[u].user_id by {
        assert(next[u].entries == keep2(g[u].entries, g));
        lemma_keep2_sorted(g[u].entries, g);
    }
    if next == g {
    } else {
        lemma_apply_keep_le(g, g);
        if total_len(next) == total_len(g) {
            lemma_apply_keep_eq(g, g);
        }
        lemma_fix_filter_sorted(next);
    }
}

fn copy_bytes(v: &Vec<u8>) -> (out: Vec<u8>)
    ensures
        out@ == v@,
{
    let out = copy_range(v.as_slice(), 0, v.len());
    proof {
        assert(out@ =~= v@);
    }
    out
}

fn copy_mod(m: &Mod) -> (out: Mod)
    ensures
        crate::mods::mod_view(out) == crate::mods::mod_view(*m),
{
    let acronym = copy_bytes(&m.acronym);
    let settings = match &m.settings {
        Some(s) => Some(copy_bytes(s)),
        None => None,
    };
    Mod { acronym, settings }
}

fn copy_mods_vec(v: &Vec<Mod>) -> (out: Vec<Mod>)
    ensures
        mods_view(out) == mods_view(*v),
{
    let mut out: Vec<Mod> = Vec::new();
    let mut i: usize = 0;
    proof {
        assert(mods_view(out) =~= mods_view(*v).take(0));
    }
    while i < v.len()
        invariant
            i <= v@.len(),
            mods_view(out) == mods_view(*v).take(i as int),
        decreases v.len() - i,
    {
        let m = copy_mod(&v[i]);
        let ghost bo = mods_view(out);
        out.push(m);
        proof {
            assert(mods_view(out) =~= bo.push(crate::mods::mod_view(m)));
            assert(crate::mods::mod_view(m) == mods_view(*v)[i as int]);
            assert(mods_view(out) =~= mods_view(*v).take(i + 1));
        }
        i += 1;
    }
    proof {
        assert(mods_view(*v).take(v@.len() as int) =~= mods_view(*v));
    }
    out
}

fn copy_row(r: &ScoreRow) -> (out: ScoreRow)
    ensures
        row_view(out) == row_view(*r),
{
    ScoreRow {
        user_id: r.user_id,
        beatmap_id: r.beatmap_id,
        total_score: r.total_score,
        pp: r.pp,
        mods: copy_mods_vec(&r.mods),
    }
}

/// One executable filter round: counts taken on the input snapshot, then
/// each list rebuilt from its shared entries.
pub fn filter_round(lists: &Vec<UserScores>) -> (out: Vec<UserScores>)
    ensures
        users_view(out) == filter_round_spec(users_view(*lists)),
{
    let ghost g = users_view(*lists);
    let mut out: Vec<UserScores> = Vec::new();
    let mut ui: usize = 0;
    proof {
        assert(users_view(out) =~= apply_keep(g.take(0), g));
    }
    while ui < lists.len()
        invariant
            g == users_view(*lists),
            ui <= lists@.len(),
            users_view(out) == apply_keep(g.take(ui as int), g),
        decreases lists.len() - ui,
    {
        let mut kept: Vec<ScoreRow> = Vec::new();
        let mut ei: usize = 0;
        proof {
            assert(rows_views(kept) =~= keep2(g[ui as int].entries.take(0), g));
        }
        while ei < lists[ui].entries.len()
            invariant
                g == users_view(*lists),
                ui < lists@.len(),
                ei <= g[ui as int].entries.len(),
                g[ui as int].entries.len() == lists@[ui as int].entries@.len(),
                rows_views(kept) == keep2(g[ui as int].entries.take(ei as int), g),
            decreases lists@[ui as int].entries@.len() - ei,
        {
            let ghost erow = g[ui as int].entries[ei as int];
            proof {
                assert(erow == row_view(lists@[ui as int].entries@[ei as int]));
                lemma_keep2_snoc(g[ui as int].entries.take(ei as int), erow, g);
                assert(g[ui as int].entries.take(ei + 1) =~= g[ui as int].entries.take(
                    ei as int,
                ).push(erow));
            }
            let b = lists[ui].entries[ei].beatmap_id;
            if pair_shared(lists, b, &lists[ui].entries[ei].mods) {
                let ghost kv = rows_views(kept);
                let c = copy_row(&lists[ui].entries[ei]);
                kept.push(c);
                proof {
                    assert(rows_views(kept) =~= kv.push(erow));
                }
            }
            ei += 1;
        }
        proof {
            assert(g[ui as int].entries.take(g[ui as int].entries.len() as int) =~= g[
                ui as int
            ].entries);
        }
        let uid = lists[ui].user_id;
        let ghost ov = users_view(out);
        out.push(UserScores { user_id: uid, entries: kept });
        proof {
            assert(users_view(out) =~= ov.push(
                UserV { user_id: g[ui as int].user_id, entries: keep2(g[ui as int].entries, g) },
            ));
            assert(g.take(ui + 1) =~= g.take(ui as int).push(g[ui as int]));
            assert(apply_keep(g.take(ui + 1), g) =~= apply_keep(g.take(ui as int), g).push(
                UserV { user_id: g[ui as int].user_id, entries: keep2(g[ui as int].entries, g) },
            ));
        }
        ui += 1;
    }
    proof {
        assert(g.take(g.len() as int) =~= g);
    }
    out
}

/// Runs filter rounds until one removes nothing; the result is the filter's
/// fixed point and satisfies the post-filter invariant.
pub fn run_filter(lists: Vec<UserScores>) -> (out: Vec<UserScores>)
    ensures
        users_view(out) == fix_filter(users_view(lists)),
        converged(users_view(out)),
{
    let ghost orig = users_view(lists);
    proof {
        lemma_fix_filter_converged(orig);
    }
    let mut cur = lists;
    loop
        invariant
            orig == users_view(lists),
            fix_filter(users_view(cur)) == fix_filter(orig),
        decreases total_len(users_view(cur)),
    {
        let ghost cv = users_view(cur);
        let next = filter_round(&cur);
        let ghost nv = users_view(next);
        let mut changed = false;
        let mut ui: usize = 0;
        proof {
            assert(nv.len() == cv.len());
        }
        while ui < cur.len()
            invariant
                cv == users_view(cur),
                nv == users_view(next),
                nv.len() == cv.len(),
                ui <= cur@.len(),
                cur@.len() == cv.len(),
                next@.len() == nv.len(),
                !changed ==> forall|u: int|
                    0 <= u < ui ==> (#[trigger] nv[u]).entries.len() == cv[u].entries.len(),
                changed ==> nv != cv,
            decreases cur.len() - ui,
        {
            if next[ui].entries.len() != cur[ui].entries.len() {
                proof {
                    assert(nv[ui as int].entries.len() != cv[ui as int].entries.len());
                    assert(nv != cv);
                }
                changed = true;
            }
            ui += 1;
        }
        if !changed {
            proof {
                assert forall|u: int| 0 <= u < cv.len() implies #[trigger] nv[u] == cv[u] by {
                    assert(nv[u].entries == keep2(cv[u].entries, cv));
                    assert(nv[u].entries.len() == cv[u].entries.len());
                    lemma_keep2_len_id(cv[u].entries, cv);
                    assert(nv[u].user_id == cv[u].user_id);
                }
                assert(nv =~= cv);
                assert(filter_round_spec(cv) == cv);
                assert(fix_filter(cv) == cv);
                lemma_converged_iff(cv);
            }
            return next;
        }
        proof {
            assert(filter_round_spec(cv) == nv);
            assert(nv != cv);
            assert(fix_filter(cv) == fix_filter(nv));
            lemma_apply_keep_le(cv, cv);
            if total_len(nv) == total_len(cv) {
                lemma_apply_keep_eq(cv, cv);
            }
            assert(total_len(nv) < total_len(cv));
        }
        cur = next;
    }
}

} // verus!

verus! {

/// The per-player cap applied after the first convergence pass.
pub const MAX_PER_USER: usize = 100;

/// Every list cut to its first `MAX_PER_USER` entries: for ranked lists,
/// exactly the top 100 by pp, or fewer where fewer exist.
pub open spec fn trunc_spec(g: Seq<UserV>) -> Seq<UserV> {
    g.map_values(
        |uv: UserV|
            UserV {
                user_id: uv.user_id,
                entries: uv.entries.take(
                    if uv.entries.len() < MAX_PER_USER as nat {
                        uv.entries.len() as int
                    } else {
                        MAX_PER_USER as int
                    },
                ),
            },
    )
}

/// Keeps only each user's first (highest-ranked) 100 entries.
pub fn truncate_all(lists: Vec<UserScores>) -> (out: Vec<UserScores>)
    ensures
        users_view(out) == trunc_spec(users_view(lists)),
{
    let ghost orig = users_view(lists);
    let mut rev = rev_vec(lists);
    let mut out: Vec<UserScores> = Vec::new();
    proof {
        assert forall|t: int| 0 <= t < rev@.len() implies #[trigger] users_view(rev)[t]
            == orig[orig.len() - 1 - t] by {}
        assert(users_view(rev).reverse() =~= orig.skip(0));
        assert(users_view(out) =~= trunc_spec(orig.take(0)));
    }
    while rev.len() > 0
        invariant
            users_view(rev).reverse() =~= orig.skip(orig.len() - users_view(rev).len()),
            users_view(rev).len() <= orig.len(),
            users_view(out) == trunc_spec(orig.take(orig.len() - users_view(rev).len())),
        decreases rev.len(),
    {
        let ghost rv = users_view(rev);
        let ghost kk = orig.len() - rv.len();
        let mut x = rev.pop().unwrap();
        proof {
            assert(user_view(x) == rv.last());
            assert(rv.last() == rv.reverse()[0]);
            assert(rv.reverse()[0] == orig[kk]);
            assert(users_view(rev) =~= rv.drop_last());
            assert(rv.drop_last().reverse() =~= rv.reverse().skip(1));
            assert(rv.reverse() == orig.skip(kk));
            assert(rv.reverse().skip(1) =~= orig.skip(kk + 1));
            assert(users_view(rev).reverse() =~= orig.skip(kk + 1));
        }
        let ghost ev = rows_views(x.entries);
        x.entries.truncate(MAX_PER_USER);
        let ghost cut: int = if ev.len() < MAX_PER_USER as nat {
            ev.len() as int
        } else {
            MAX_PER_USER as int
        };
        proof {
            assert(rows_views(x.entries) =~= ev.take(cut));
        }
        let ghost ov = users_view(out);
        out.push(x);
        proof {
            assert(users_view(out) =~= ov.push(
                UserV { user_id: orig[kk].user_id, entries: orig[kk].entries.take(cut) },
            ));
            assert(orig.take(kk + 1) =~= orig.take(kk).push(orig[kk]));
            assert(trunc_spec(orig.take(kk + 1)) =~= trunc_spec(orig.take(kk)).push(
                UserV { user_id: orig[kk].user_id, entries: orig[kk].entries.take(cut) },
            ));
        }
    }
    proof {
        assert(orig.take(orig.len() as int) =~= orig);
    }
    out
}

/// One final output row.
#[derive(Debug, Clone, PartialEq, Eq)]
pub struct FilteredEntry {
    pub user_id: u64,
    pub beatmap_id: u64,
    pub mods: Vec<Mod>,
    pub total_score: u64,
}

#[verifier::ext_equal]
pub ghost struct FEntryV {
    pub user_id: u64,
    pub beatmap_id: u64,
    pub mods: Seq<ModV>,
    pub total_score: u64,
}

pub open spec fn fe_view(e: FilteredEntry) -> FEntryV {
    FEntryV {
        user_id: e.user_id,
        beatmap_id: e.beatmap_id,
        mods: mods_view(e.mods),
        total_score: e.total_score,
    }
}

pub open spec fn fes_view(v: Vec<FilteredEntry>) -> Seq<FEntryV> {
    v@.map_values(|e: FilteredEntry| fe_view(e))
}

pub open spec fn fe_of(r: RowV) -> FEntryV {
    FEntryV {
        user_id: r.user_id,
        beatmap_id: r.beatmap_id,
        mods: r.mods,
        total_score: r.total_score,
    }
}

pub open spec fn fe_pair(e: FEntryV) -> PairV {
    (e.beatmap_id, acronyms(e.mods))
}

/// Every surviving entry of the population, users in order.
pub open spec fn all_rows(g: Seq<UserV>) -> Seq<RowV>
    decreases g.len(),
{
    if g.len() == 0 {
        Seq::empty()
    } else {
        g[0].entries + all_rows(g.skip(1))
    }
}

/// The flattened output: the union of all surviving entries as rows.
pub open spec fn flatten_spec(g: Seq<UserV>) -> Seq<FEntryV> {
    all_rows(g).map_values(|r: RowV| fe_of(r))
}

pub proof fn lemma_all_rows_snoc(g: Seq<UserV>, uv: UserV)
    ensures
        all_rows(g.push(uv)) == all_rows(g) + uv.entries,
    decreases g.len(),
{
    if g.len() == 0 {
        assert(g.push(uv)[0] == uv);
        assert(g.push(uv).skip(1) =~= Seq::<UserV>::empty());
        assert(all_rows(Seq::<UserV>::empty()) =~= Seq::<RowV>::empty());
        assert(all_rows(g) =~= Seq::<RowV>::empty());
        assert(all_rows(g.push(uv)) == uv.entries + all_rows(g.push(uv).skip(1)));
        assert(uv.entries + Seq::<RowV>::empty() =~= Seq::<RowV>::empty() + uv.entries);
        assert(all_rows(g.push(uv)) =~= all_rows(g) + uv.entries);
    } else {
        assert(g.push(uv)[0] == g[0]);
        assert(g.push(uv).skip(1) =~= g.skip(1).push(uv));
        lemma_all_rows_snoc(g.skip(1), uv);
        assert(g[0].entries + (all_rows(g.skip(1)) + uv.entries) =~= (g[0].entries + all_rows(
            g.skip(1),
        )) + uv.entries);
    }
}

/// How many output rows share the pair.
pub open spec fn count_fe(s: Seq<FEntryV>, p: PairV) -> nat
    decreases s.len(),
{
    if s.len() == 0 {
        0
    } else {
        (if fe_pair(s[0]) == p {
            1nat
        } else {
            0nat
        }) + count_fe(s.skip(1), p)
    }
}

pub proof fn lemma_count_fe_map(s: Seq<RowV>, p: PairV)
    ensures
        count_fe(s.map_values(|r: RowV| fe_of(r)), p) == count_in(s, p),
    decreases s.len(),
{
    if s.len() > 0 {
        let m = s.map_values(|r: RowV| fe_of(r));
        assert(m[0] == fe_of(s[0]));
        assert(fe_pair(fe_of(s[0])) == pair_of(s[0]));
        assert(m.skip(1) =~= s.skip(1).map_values(|r: RowV| fe_of(r)));
        lemma_count_fe_map(s.skip(1), p);
    }
}

pub proof fn lemma_count_in_add(a: Seq<RowV>, b: Seq<RowV>, p: PairV)
    ensures
        count_in(a + b, p) == count_in(a, p) + count_in(b, p),
    decreases a.len(),
{
    if a.len() == 0 {
        assert(a + b =~= b);
    } else {
        assert((a + b)[0] == a[0]);
        assert((a + b).skip(1) =~= a.skip(1) + b);
        lemma_count_in_add(a.skip(1), b, p);
    }
}

/// Counting over the whole population equals counting over its flattened
/// rows.
pub proof fn lemma_count_pair_all(g: Seq<UserV>, p: PairV)
    ensures
        count_pair(g, p) == count_in(all_rows(g), p),
    decreases g.len(),
{
    if g.len() > 0 {
        lemma_count_in_add(g[0].entries, all_rows(g.skip(1)), p);
        lemma_count_pair_all(g.skip(1), p);
    }
}

/// Every flattened row is some user's surviving entry.
pub proof fn lemma_all_rows_elem(g: Seq<UserV>, k: int)
    requires
        0 <= k < all_rows(g).len(),
    ensures
        exists|u: int, i: int|
            0 <= u < g.len() && 0 <= i < g[u].entries.len() && all_rows(g)[k]
                == #[trigger] g[u].entries[i],
    decreases g.len(),
{
    if g.len() > 0 {
        if k < g[0].entries.len() {
            assert(all_rows(g)[k] == g[0].entries[k]);
            assert(0 <= 0 < g.len() && 0 <= k < g[0].entries.len() && all_rows(g)[k]
                == g[0].entries[k]);
        } else {
            let k2 = k - g[0].entries.len();
            assert(all_rows(g)[k] == all_rows(g.skip(1))[k2]);
            lemma_all_rows_elem(g.skip(1), k2);
            let (u2, i2): (int, int) = choose|u2: int, i2: int|
                0 <= u2 < g.skip(1).len() && 0 <= i2 < g.skip(1)[u2].entries.len()
                    && all_rows(g.skip(1))[k2] == #[trigger] g.skip(1)[u2].entries[i2];
            assert(g.skip(1)[u2] == g[u2 + 1]);
            assert(0 <= u2 + 1 < g.len() && 0 <= i2 < g[u2 + 1].entries.len() && all_rows(g)[k]
                == g[u2 + 1].entries[i2]);
        }
    }
}

/// Post-filter invariant, read off the flattened output: every surviving
/// row's `(beatmap, canonical mods)` pair is shared by at least two rows of
/// the surviving population.
pub proof fn lemma_post_filter_invariant(g: Seq<UserV>, k: int)
    requires
        converged(g),
        0 <= k < flatten_spec(g).len(),
    ensures
        count_fe(flatten_spec(g), fe_pair(flatten_spec(g)[k])) >= 2,
{
    let rows = all_rows(g);
    lemma_all_rows_elem(g, k);
    let (u, i): (int, int) = choose|u: int, i: int|
        0 <= u < g.len() && 0 <= i < g[u].entries.len() && all_rows(g)[k]
            == #[trigger] g[u].entries[i];
    let p = pair_of(g[u].entries[i]);
    assert(count_pair(g, p) >= 2);
    lemma_count_pair_all(g, p);
    lemma_count_fe_map(rows, p);
    assert(flatten_spec(g)[k] == fe_of(rows[k]));
    assert(fe_pair(flatten_spec(g)[k]) == p);
}

fn copy_entry_out(r: &ScoreRow) -> (out: FilteredEntry)
    ensures
        fe_view(out) == fe_of(row_view(*r)),
{
    FilteredEntry {
        user_id: r.user_id,
        beatmap_id: r.beatmap_id,
        mods: copy_mods_vec(&r.mods),
        total_score: r.total_score,
    }
}

/// Flattens the surviving population into output rows.
pub fn flatten(lists: &Vec<UserScores>) -> (out: Vec<FilteredEntry>)
    ensures
        fes_view(out) == flatten_spec(users_view(*lists)),
{
    let ghost g = users_view(*lists);
    let mut out: Vec<FilteredEntry> = Vec::new();
    let mut ui: usize = 0;
    proof {
        assert(g.take(0) =~= Seq::<UserV>::empty());
        assert(fes_view(out) =~= flatten_spec(g.take(0)));
    }
    while ui < lists.len()
        invariant
            g == users_view(*lists),
            ui <= lists@.len(),
            fes_view(out) == flatten_spec(g.take(ui as int)),
        decreases lists.len() - ui,
    {
        let mut ei: usize = 0;
        while ei < lists[ui].entries.len()
            invariant
                g == users_view(*lists),
                ui < lists@.len(),
                ei <= g[ui as int].entries.len(),
                g[ui as int].entries.len() == lists@[ui as int].entries@.len(),
                fes_view(out) == flatten_spec(g.take(ui as int)) + g[ui as int].entries.take(
                    ei as int,
                ).map_values(|r: RowV| fe_of(r)),
            decreases lists@[ui as int].entries@.len() - ei,
        {
            let ghost erow = g[ui as int].entries[ei as int];
            let e = copy_entry_out(&lists[ui].entries[ei]);
            let ghost ov = fes_view(out);
            out.push(e);
            proof {
                assert(erow == row_view(lists@[ui as int].entries@[ei as int]));
                assert(fes_view(out) =~= ov.push(fe_of(erow)));
                assert(g[ui as int].entries.take(ei + 1) =~= g[ui as int].entries.take(
                    ei as int,
                ).push(erow));
                assert(fes_view(out) =~= flatten_spec(g.take(ui as int)) + g[
                    ui as int
                ].entries.take(ei + 1).map_values(|r: RowV| fe_of(r)));
            }
            ei += 1;
        }
        proof {
            assert(g[ui as int].entries.take(g[ui as int].entries.len() as int) =~= g[
                ui as int
            ].entries);
            lemma_all_rows_snoc(g.take(ui as int), g[ui as int]);
            assert(g.take(ui + 1) =~= g.take(ui as int).push(g[ui as int]));
            assert(fes_view(out) =~= flatten_spec(g.take(ui + 1)));
        }
        ui += 1;
    }
    proof {
        assert(g.take(g.len() as int) =~= g);
        assert(fes_view(out) + Seq::<FEntryV>::empty() =~= fes_view(out));
    }
    out
}

} // verus!

verus! {

/// Truncation on a ranked list keeps exactly its first hundred entries —
/// the highest-pp ones, or all of them where fewer exist: everything kept
/// ranks at least as high as everything cut.
pub proof fn lemma_truncate_keeps_top(g: Seq<UserV>, u: int)
    requires
        0 <= u < g.len(),
        sorted_desc(g[u].entries),
    ensures
        ({
            let s = g[u].entries;
            let cut: int = if s.len() < MAX_PER_USER as nat {
                s.len() as int
            } else {
                MAX_PER_USER as int
            };
            &&& trunc_spec(g)[u].entries == s.take(cut)
            &&& sorted_desc(trunc_spec(g)[u].entries)
            &&& forall|i: int, j: int|
                0 <= i < cut && cut <= j < s.len() ==> (#[trigger] s[i]).pp >= (
                #[trigger] s[j]).pp
        }),
{
    let s = g[u].entries;
    let cut: int = if s.len() < MAX_PER_USER as nat {
        s.len() as int
    } else {
        MAX_PER_USER as int
    };
    assert(trunc_spec(g)[u].entries == s.take(cut));
    assert forall|i: int, j: int| 0 <= i < j < s.take(cut).len() implies (#[trigger] s.take(
        cut,
    )[i]).pp >= (#[trigger] s.take(cut)[j]).pp by {
        assert(s.take(cut)[i] == s[i] && s.take(cut)[j] == s[j]);
    }
}

} // verus!
