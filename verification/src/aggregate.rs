//! Score aggregator: reduces the score stream to one best-pp record per
//! `(user_id, beatmap_id)` pair, keeping the first-seen row on exact ties.

use vstd::prelude::*;

use crate::rev_vec;
use crate::mods::{Mod, ModV, mods_view};

verus! {

/// One aggregated score. `pp` is an order-preserving integer key for the
/// row's finite floating-point pp value: comparing keys compares pp.
#[derive(Debug, Clone, PartialEq, Eq)]
pub struct ScoreRow {
    pub user_id: u64,
    pub beatmap_id: u64,
    pub total_score: u64,
    pub pp: u64,
    pub mods: Vec<Mod>,
}

#[verifier::ext_equal]
pub ghost struct RowV {
    pub user_id: u64,
    pub beatmap_id: u64,
    pub total_score: u64,
    pub pp: u64,
    pub mods: Seq<ModV>,
}

pub open spec fn row_view(r: ScoreRow) -> RowV {
    RowV {
        user_id: r.user_id,
        beatmap_id: r.beatmap_id,
        total_score: r.total_score,
        pp: r.pp,
        mods: mods_view(r.mods),
    }
}

pub open spec fn rows_views(v: Vec<ScoreRow>) -> Seq<RowV> {
    v@.map_values(|r: ScoreRow| row_view(r))
}

pub open spec fn key_is(r: RowV, u: u64, b: u64) -> bool {
    r.user_id == u && r.beatmap_id == b
}

/// Index of the first entry with the given key, or -1.
pub open spec fn find_key(s: Seq<RowV>, u: u64, b: u64) -> int
    decreases s.len(),
{
    if s.len() == 0 {
        -1
    } else if key_is(s[0], u, b) {
        0
    } else {
        let r = find_key(s.skip(1), u, b);
        if r < 0 {
            -1
        } else {
            1 + r
        }
    }
}

pub proof fn lemma_find_key_char(s: Seq<RowV>, u: u64, b: u64)
    ensures
        find_key(s, u, b) == -1 ==> forall|i: int| 0 <= i < s.len() ==> !key_is(
            #[trigger] s[i],
            u,
            b,
        ),
        find_key(s, u, b) != -1 ==> 0 <= find_key(s, u, b) < s.len() && key_is(
            s[find_key(s, u, b)],
            u,
            b,
        ) && forall|i: int| 0 <= i < find_key(s, u, b) ==> !key_is(#[trigger] s[i], u, b),
    decreases s.len(),
{
    if s.len() > 0 && !key_is(s[0], u, b) {
        lemma_find_key_char(s.skip(1), u, b);
        assert forall|i: int| 1 <= i < s.len() implies s.skip(1)[i - 1] == s[i] by {}
    }
}

/// The first index whose entry has the given key is the one `find_key`
/// names.
pub proof fn lemma_find_key_at(s: Seq<RowV>, u: u64, b: u64, m: int)
    requires
        0 <= m < s.len(),
        key_is(s[m], u, b),
        forall|j: int| 0 <= j < m ==> !key_is(#[trigger] s[j], u, b),
    ensures
        find_key(s, u, b) == m,
    decreases s.len(),
{
    if m > 0 {
        assert forall|j: int| 0 <= j < m - 1 implies !key_is(#[trigger] s.skip(1)[j], u, b) by {
            assert(s.skip(1)[j] == s[j + 1]);
        }
        assert(s.skip(1)[m - 1] == s[m]);
        lemma_find_key_at(s.skip(1), u, b, m - 1);
    }
}

pub proof fn lemma_find_key_push(s: Seq<RowV>, r: RowV, u: u64, b: u64)
    ensures
        find_key(s.push(r), u, b) == if find_key(s, u, b) >= 0 {
            find_key(s, u, b)
        } else if key_is(r, u, b) {
            s.len() as int
        } else {
            -1int
        },
{
    lemma_find_key_char(s, u, b);
    let t = s.push(r);
    if find_key(s, u, b) >= 0 {
        let m = find_key(s, u, b);
        assert forall|j: int| 0 <= j < m implies !key_is(#[trigger] t[j], u, b) by {
            assert(t[j] == s[j]);
        }
        assert(t[m] == s[m]);
        lemma_find_key_at(t, u, b, m);
    } else if key_is(r, u, b) {
        assert forall|j: int| 0 <= j < s.len() implies !key_is(#[trigger] t[j], u, b) by {
            assert(t[j] == s[j]);
        }
        assert(t[s.len() as int] == r);
        lemma_find_key_at(t, u, b, s.len() as int);
    } else {
        lemma_find_key_char(t, u, b);
        if find_key(t, u, b) != -1 {
            let m = find_key(t, u, b);
            assert(key_is(t[m], u, b));
            if m < s.len() {
                assert(t[m] == s[m]);
            }
            assert(false);
        }
    }
}

pub proof fn lemma_find_key_update(s: Seq<RowV>, i: int, r: RowV, u: u64, b: u64)
    requires
        0 <= i < s.len(),
        s[i].user_id == r.user_id && s[i].beatmap_id == r.beatmap_id,
    ensures
        find_key(s.update(i, r), u, b) == find_key(s, u, b),
{
    let t = s.update(i, r);
    lemma_find_key_char(s, u, b);
    lemma_find_key_char(t, u, b);
    assert(forall|j: int| 0 <= j < s.len() ==> key_is(#[trigger] t[j], u, b) == key_is(
        s[j],
        u,
        b,
    ));
    if find_key(s, u, b) != -1 {
        lemma_find_key_at(t, u, b, find_key(s, u, b));
    } else {
        if find_key(t, u, b) != -1 {
            assert(key_is(t[find_key(t, u, b)], u, b));
            assert(false);
        }
    }
}

/// The aggregated entry list after consuming the row stream in order: a new
/// key is appended; a strictly better pp replaces the stored record whole;
/// anything else leaves the list unchanged.
pub open spec fn agg_list(rows: Seq<RowV>) -> Seq<RowV>
    decreases rows.len(),
{
    if rows.len() == 0 {
        Seq::empty()
    } else {
        let prev = agg_list(rows.drop_last());
        let r = rows.last();
        let idx = find_key(prev, r.user_id, r.beatmap_id);
        if idx < 0 {
            prev.push(r)
        } else if r.pp > prev[idx].pp {
            prev.update(idx, r)
        } else {
            prev
        }
    }
}

/// Aggregated entries carry pairwise distinct keys.
pub open spec fn unique_keys(s: Seq<RowV>) -> bool {
    forall|i: int, j: int| 0 <= i < j < s.len() ==> !(s[i].user_id == s[j].user_id
        && s[i].beatmap_id == s[j].beatmap_id)
}

pub proof fn lemma_agg_unique(rows: Seq<RowV>)
    ensures
        unique_keys(agg_list(rows)),
    decreases rows.len(),
{
    if rows.len() > 0 {
        lemma_agg_unique(rows.drop_last());
        let prev = agg_list(rows.drop_last());
        let r = rows.last();
        let idx = find_key(prev, r.user_id, r.beatmap_id);
        lemma_find_key_char(prev, r.user_id, r.beatmap_id);
        if idx < 0 {
            let t = prev.push(r);
            assert forall|i: int, j: int| 0 <= i < j < t.len() implies !(t[i].user_id
                == t[j].user_id && t[i].beatmap_id == t[j].beatmap_id) by {
                if j < prev.len() {
                    assert(t[i] == prev[i] && t[j] == prev[j]);
                } else {
                    assert(t[i] == prev[i] && t[j] == r);
                }
            }
        } else if r.pp > prev[idx].pp {
            let t = prev.update(idx, r);
            assert forall|i: int, j: int| 0 <= i < j < t.len() implies !(t[i].user_id
                == t[j].user_id && t[i].beatmap_id == t[j].beatmap_id) by {
                assert(t[i].user_id == prev[i].user_id && t[i].beatmap_id == prev[i].beatmap_id);
                assert(t[j].user_id == prev[j].user_id && t[j].beatmap_id == prev[j].beatmap_id);
            }
        }
    }
}

/// Finds the stored entry with the row's key, if any.
fn find_row(entries: &Vec<ScoreRow>, u: u64, b: u64) -> (r: Option<usize>)
    ensures
        match r {
            Some(i) => find_key(rows_views(*entries), u, b) == i as int && i < entries@.len(),
            None => find_key(rows_views(*entries), u, b) == -1,
        },
{
    let ghost s = rows_views(*entries);
    let mut i: usize = 0;
    while i < entries.len()
        invariant
            s == rows_views(*entries),
            i <= entries@.len(),
            forall|j: int| 0 <= j < i ==> !key_is(#[trigger] s[j], u, b),
        decreases entries.len() - i,
    {
        if entries[i].user_id == u && entries[i].beatmap_id == b {
            proof {
                assert(key_is(s[i as int], u, b));
                lemma_find_key_at(s, u, b, i as int);
            }
            return Some(i);
        }
        i += 1;
    }
    proof {
        lemma_find_key_char(s, u, b);
        if find_key(s, u, b) != -1 {
            assert(key_is(s[find_key(s, u, b)], u, b));
            assert(false);
        }
    }
    None
}

/// Consumes the decoded score stream in order and keeps, for every
/// `(user_id, beatmap_id)` pair, the first-seen row of maximal pp.
pub fn aggregate(rows: Vec<ScoreRow>) -> (out: Vec<ScoreRow>)
    ensures
        rows_views(out) == agg_list(rows_views(rows)),
        unique_keys(rows_views(out)),
{
    let ghost rwv = rows_views(rows);
    proof {
        lemma_agg_unique(rwv);
    }
    let mut rev = rev_vec(rows);
    let mut out: Vec<ScoreRow> = Vec::new();
    let ghost k: int = 0;
    proof {
        assert forall|t: int| 0 <= t < rev@.len() implies #[trigger] rows_views(rev)[t]
            == rwv[rwv.len() - 1 - t] by {}
        assert(rows_views(rev).reverse() =~= rwv.skip(0));
        assert(rwv.take(0) =~= Seq::<RowV>::empty());
        assert(rows_views(out) =~= agg_list(rwv.take(0)));
    }
    while rev.len() > 0
        invariant
            rows_views(rev).reverse() =~= rwv.skip(rwv.len() - rows_views(rev).len()),
            rows_views(rev).len() <= rwv.len(),
            rows_views(out) == agg_list(rwv.take(rwv.len() - rows_views(rev).len())),
        decreases rev.len(),
    {
        let ghost rv = rows_views(rev);
        let ghost kk = rwv.len() - rv.len();
        let x = rev.pop().unwrap();
        proof {
            assert(row_view(x) == rv.last());
            assert(rv.last() == rv.reverse()[0]);
            assert(rv.reverse()[0] == rwv[kk]);
            assert(rows_views(rev) =~= rv.drop_last());
            assert(rv.drop_last().reverse() =~= rv.reverse().skip(1));
            assert(rv.reverse() == rwv.skip(kk));
            assert(rv.reverse().skip(1) =~= rwv.skip(kk + 1));
            assert(rows_views(rev).reverse() =~= rwv.skip(kk + 1));
            assert(rwv.take(kk + 1).drop_last() =~= rwv.take(kk));
            assert(rwv.take(kk + 1).last() == rwv[kk]);
        }
        let ghost prev = rows_views(out);
        match find_row(&out, x.user_id, x.beatmap_id) {
            None => {
                out.push(x);
                proof {
                    assert(rows_views(out) =~= prev.push(row_view(x)));
                    assert(rows_views(out) == agg_list(rwv.take(kk + 1)));
                }
            },
            Some(idx) => {
                if x.pp > out[idx].pp {
                    proof {
                        assert(rows_views(out)[idx as int].pp == out@[idx as int].pp);
                    }
                    out[idx] = x;
                    proof {
                        assert(rows_views(out) =~= prev.update(idx as int, row_view(x)));
                        assert(rows_views(out) == agg_list(rwv.take(kk + 1)));
                    }
                } else {
                    proof {
                        assert(rows_views(out) == agg_list(rwv.take(kk + 1)));
                    }
                }
            },
        }
    }
    proof {
        assert(rwv.take(rwv.len() as int) =~= rwv);
    }
    out
}

/// Aggregation correctness: when any ranked row carries a key, the list
/// aggregated from the stream carries exactly one entry for it; that entry
/// is a row of the stream with that key, no stream row with the key has a
/// greater pp, and every earlier stream row with the key has a strictly
/// smaller pp — on an exact tie the first-seen row is the one kept.
pub proof fn lemma_agg_retains_best(rows: Seq<RowV>, u: u64, b: u64)
    ensures
        (exists|j: int| 0 <= j < rows.len() && key_is(#[trigger] rows[j], u, b)) <==> find_key(
            agg_list(rows),
            u,
            b,
        ) >= 0,
        find_key(agg_list(rows), u, b) >= 0 ==> exists|i: int|
            {
                &&& 0 <= i < rows.len()
                &&& key_is(#[trigger] rows[i], u, b)
                &&& rows[i] == agg_list(rows)[find_key(agg_list(rows), u, b)]
                &&& forall|j: int| 0 <= j < rows.len() && key_is(#[trigger] rows[j], u, b)
                    ==> rows[j].pp <= rows[i].pp
                &&& forall|j: int| 0 <= j < i && key_is(#[trigger] rows[j], u, b) ==> rows[j].pp
                    < rows[i].pp
            },
    decreases rows.len(),
{
    if rows.len() == 0 {
        lemma_find_key_char(agg_list(rows), u, b);
    } else {
        let butlast = rows.drop_last();
        lemma_agg_retains_best(butlast, u, b);
        let prev = agg_list(butlast);
        let r = rows.last();
        let ridx = find_key(prev, r.user_id, r.beatmap_id);
        lemma_find_key_char(prev, r.user_id, r.beatmap_id);
        let cur = agg_list(rows);
        lemma_find_key_char(prev, u, b);
        assert(forall|j: int| 0 <= j < butlast.len() ==> rows[j] == butlast[j]);
        if !key_is(r, u, b) {
            if exists|j: int| 0 <= j < rows.len() && key_is(#[trigger] rows[j], u, b) {
                let j = choose|j: int| 0 <= j < rows.len() && key_is(#[trigger] rows[j], u, b);
                assert(j < butlast.len() && key_is(butlast[j], u, b));
            }
            if exists|j: int| 0 <= j < butlast.len() && key_is(#[trigger] butlast[j], u, b) {
                let j = choose|j: int| 0 <= j < butlast.len() && key_is(#[trigger] butlast[j], u, b);
                assert(key_is(rows[j], u, b));
            }
            if ridx < 0 {
                lemma_find_key_push(prev, r, u, b);
            } else if r.pp > prev[ridx].pp {
                lemma_find_key_update(prev, ridx, r, u, b);
                assert(!key_is(prev[ridx], u, b));
                if find_key(prev, u, b) >= 0 {
                    assert(cur[find_key(prev, u, b)] == prev[find_key(prev, u, b)]);
                }
            }
            let fk = find_key(cur, u, b);
            assert(fk == find_key(prev, u, b));
            if fk >= 0 {
                let i = choose|i: int|
                    {
                        &&& 0 <= i < butlast.len()
                        &&& key_is(#[trigger] butlast[i], u, b)
                        &&& butlast[i] == prev[find_key(prev, u, b)]
                        &&& forall|j: int|
                            0 <= j < butlast.len() && key_is(#[trigger] butlast[j], u, b)
                                ==> butlast[j].pp <= butlast[i].pp
                        &&& forall|j: int| 0 <= j < i && key_is(#[trigger] butlast[j], u, b)
                            ==> butlast[j].pp < butlast[i].pp
                    };
                assert(rows[i] == butlast[i]);
                assert(forall|j: int| 0 <= j < butlast.len() ==> rows[j] == butlast[j]);
                assert(rows[i] == cur[fk]);
                assert(forall|j: int| 0 <= j < rows.len() && key_is(#[trigger] rows[j], u, b)
                    ==> rows[j].pp <= rows[i].pp);
            }
        } else {
            // the last row carries the key itself
            assert(key_is(rows[rows.len() - 1], u, b));
            if ridx < 0 {
                // no entry for the key yet: no earlier row carries it
                lemma_find_key_push(prev, r, u, b);
                let fk = find_key(cur, u, b);
                assert(fk == prev.len());
                assert(cur[fk] == r);
                let i = rows.len() - 1;
                assert(rows[i] == r && key_is(rows[i], u, b));
                assert(forall|j: int| 0 <= j < butlast.len() ==> rows[j] == butlast[j]);
                assert(forall|j: int| 0 <= j < rows.len() - 1 ==> !key_is(
                    #[trigger] rows[j],
                    u,
                    b,
                ));
                assert(0 <= i < rows.len() && key_is(rows[i], u, b) && rows[i] == cur[fk]
                    && (forall|j: int|
                        0 <= j < rows.len() && key_is(#[trigger] rows[j], u, b) ==> rows[j].pp
                            <= rows[i].pp) && (forall|j: int|
                        0 <= j < i && key_is(#[trigger] rows[j], u, b) ==> rows[j].pp
                            < rows[i].pp));
            } else {
                assert(ridx == find_key(prev, u, b));
                let iold = choose|i: int|
                    {
                        &&& 0 <= i < butlast.len()
                        &&& key_is(#[trigger] butlast[i], u, b)
                        &&& butlast[i] == prev[find_key(prev, u, b)]
                        &&& forall|j: int|
                            0 <= j < butlast.len() && key_is(#[trigger] butlast[j], u, b)
                                ==> butlast[j].pp <= butlast[i].pp
                        &&& forall|j: int| 0 <= j < i && key_is(#[trigger] butlast[j], u, b)
                            ==> butlast[j].pp < butlast[i].pp
                    };
                assert(forall|j: int| 0 <= j < butlast.len() ==> rows[j] == butlast[j]);
                if r.pp > prev[ridx].pp {
                    lemma_find_key_update(prev, ridx, r, u, b);
                    let fk = find_key(cur, u, b);
                    assert(fk == ridx);
                    assert(cur[fk] == r);
                    let i = rows.len() - 1;
                    assert(forall|j: int| 0 <= j < rows.len() - 1 && key_is(
                        #[trigger] rows[j],
                        u,
                        b,
                    ) ==> rows[j].pp <= prev[ridx].pp);
                    assert(0 <= i < rows.len() && key_is(rows[i], u, b) && rows[i] == cur[fk]
                        && (forall|j: int|
                            0 <= j < rows.len() && key_is(#[trigger] rows[j], u, b) ==> rows[j].pp
                                <= rows[i].pp) && (forall|j: int|
                            0 <= j < i && key_is(#[trigger] rows[j], u, b) ==> rows[j].pp
                                < rows[i].pp));
                } else {
                    let fk = find_key(cur, u, b);
                    assert(fk == ridx);
                    assert(cur[fk] == prev[ridx]);
                    assert(rows[iold] == butlast[iold]);
                    assert(0 <= iold < rows.len() && key_is(rows[iold], u, b) && rows[iold]
                        == cur[fk] && (forall|j: int|
                        0 <= j < rows.len() && key_is(#[trigger] rows[j], u, b) ==> rows[j].pp
                            <= rows[iold].pp) && (forall|j: int|
                        0 <= j < iold && key_is(#[trigger] rows[j], u, b) ==> rows[j].pp
                            < rows[iold].pp));
                }
            }
        }
    }
}

} // verus!
