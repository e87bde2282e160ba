//! Field decoder and dump-level parsing: turns raw dump bytes into typed
//! user pairs and score records, line by line and statement by statement.

use vstd::prelude::*;

use crate::PipelineError;
use crate::{NL, CR};
use crate::bytes::{unescape_spec, unescape, dec_u64_spec, parse_u64};
use crate::split::{rows_scan, split_rows, fields_view, rows_view, copy_range,
    lemma_fields_scan_bounds, fields_scan};
use crate::mods::{Mod, ModV, mods_view, mods_of, sort_mods_spec, decode_canonical_mods};

verus! {

/// One row of the users dump: the unique id and the raw username bytes.
#[derive(Debug, Clone, PartialEq, Eq)]
pub struct UserRecord {
    pub user_id: u64,
    pub username: Vec<u8>,
}

pub open spec fn urec_view(r: UserRecord) -> (u64, Seq<u8>) {
    (r.user_id, r.username@)
}

pub open spec fn urecs_view(v: Vec<UserRecord>) -> Seq<(u64, Seq<u8>)> {
    v@.map_values(|r: UserRecord| urec_view(r))
}

/// One decoded score row that passed the ranked filter. `pp_raw` holds the
/// pp column's bytes untouched: reading them as a number is floating-point
/// work that the caller performs before aggregation.
#[derive(Debug, Clone, PartialEq, Eq)]
pub struct PreScore {
    pub user_id: u64,
    pub beatmap_id: u64,
    pub total_score: u64,
    pub pp_raw: Vec<u8>,
    pub mods: Vec<Mod>,
}

#[verifier::ext_equal]
pub ghost struct PreScoreV {
    pub user_id: u64,
    pub beatmap_id: u64,
    pub total_score: u64,
    pub pp_raw: Seq<u8>,
    pub mods: Seq<ModV>,
}

pub open spec fn pre_view(p: PreScore) -> PreScoreV {
    PreScoreV {
        user_id: p.user_id,
        beatmap_id: p.beatmap_id,
        total_score: p.total_score,
        pp_raw: p.pp_raw@,
        mods: mods_view(p.mods),
    }
}

pub open spec fn pre_views(v: Vec<PreScore>) -> Seq<PreScoreV> {
    v@.map_values(|p: PreScore| pre_view(p))
}

/// The statement prefix that announces rows of the users table.
pub open spec fn user_prefix() -> Seq<u8> {
    seq![73u8, 78u8, 83u8, 69u8, 82u8, 84u8, 32u8, 73u8, 78u8, 84u8, 79u8, 32u8, 96u8, 115u8, 97u8, 109u8, 112u8, 108u8, 101u8, 95u8, 117u8, 115u8, 101u8, 114u8, 115u8, 96u8, 32u8, 86u8, 65u8, 76u8, 85u8, 69u8, 83u8, 32u8, 40u8]
}

/// The statement prefix that announces rows of the scores table.
pub open spec fn score_prefix() -> Seq<u8> {
    seq![73u8, 78u8, 83u8, 69u8, 82u8, 84u8, 32u8, 73u8, 78u8, 84u8, 79u8, 32u8, 96u8, 115u8, 99u8, 111u8, 114u8, 101u8, 115u8, 96u8, 32u8, 86u8, 65u8, 76u8, 85u8, 69u8, 83u8, 32u8, 40u8]
}

pub fn user_prefix_vec() -> (v: Vec<u8>)
    ensures
        v@ == user_prefix(),
{
    let mut v: Vec<u8> = Vec::new();
    v.push(73);
    v.push(78);
    v.push(83);
    v.push(69);
    v.push(82);
    v.push(84);
    v.push(32);
    v.push(73);
    v.push(78);
    v.push(84);
    v.push(79);
    v.push(32);
    v.push(96);
    v.push(115);
    v.push(97);
    v.push(109);
    v.push(112);
    v.push(108);
    v.push(101);
    v.push(95);
    v.push(117);
    v.push(115);
    v.push(101);
    v.push(114);
    v.push(115);
    v.push(96);
    v.push(32);
    v.push(86);
    v.push(65);
    v.push(76);
    v.push(85);
    v.push(69);
    v.push(83);
    v.push(32);
    v.push(40);
    proof {
        assert(v@ =~= user_prefix());
    }
    v
}

pub fn score_prefix_vec() -> (v: Vec<u8>)
    ensures
        v@ == score_prefix(),
{
    let mut v: Vec<u8> = Vec::new();
    v.push(73);
    v.push(78);
    v.push(83);
    v.push(69);
    v.push(82);
    v.push(84);
    v.push(32);
    v.push(73);
    v.push(78);
    v.push(84);
    v.push(79);
    v.push(32);
    v.push(96);
    v.push(115);
    v.push(99);
    v.push(111);
    v.push(114);
    v.push(101);
    v.push(115);
    v.push(96);
    v.push(32);
    v.push(86);
    v.push(65);
    v.push(76);
    v.push(85);
    v.push(69);
    v.push(83);
    v.push(32);
    v.push(40);
    proof {
        assert(v@ =~= score_prefix());
    }
    v
}

pub open spec fn starts_with(s: Seq<u8>, p: Seq<u8>) -> bool {
    s.len() >= p.len() && s.subrange(0, p.len() as int) == p
}

pub fn has_prefix(line: &[u8], p: &Vec<u8>) -> (r: bool)
    ensures
        r == starts_with(line@, p@),
{
    if line.len() < p.len() {
        return false;
    }
    let mut i: usize = 0;
    while i < p.len()
        invariant
            i <= p.len() <= line@.len(),
            forall|j: int| 0 <= j < i ==> line@[j] == p@[j],
        decreases p.len() - i,
    {
        if line[i] != p[i] {
            assert(line@.subrange(0, p@.len() as int)[i as int] != p@[i as int]);
            return false;
        }
        i += 1;
    }
    proof {
        assert(line@.subrange(0, p@.len() as int) =~= p@);
    }
    true
}

/// Index of the first line feed at or after `i`, or the end of the data.
pub open spec fn find_nl(s: Seq<u8>, i: int) -> int
    decreases s.len() - i,
{
    if i < 0 || i >= s.len() {
        s.len() as int
    } else if s[i] == NL {
        i
    } else {
        find_nl(s, i + 1)
    }
}

pub proof fn lemma_find_nl_bounds(s: Seq<u8>, i: int)
    requires
        0 <= i <= s.len(),
    ensures
        i <= find_nl(s, i) <= s.len(),
    decreases s.len() - i,
{
    if i < s.len() && s[i] != NL {
        lemma_find_nl_bounds(s, i + 1);
    }
}

/// A line with a trailing carriage return loses it, as a text reader would.
pub open spec fn strip_cr(l: Seq<u8>) -> Seq<u8> {
    if l.len() > 0 && l.last() == CR {
        l.drop_last()
    } else {
        l
    }
}

/// The lines of the data from position `i` on, split at line feeds.
pub open spec fn lines_from(s: Seq<u8>, i: int) -> Seq<Seq<u8>>
    decreases s.len() - i,
{
    if i < 0 || i >= s.len() {
        Seq::empty()
    } else {
        let e = find_nl(s, i);
        if !(i <= e <= s.len()) {
            Seq::empty()
        } else {
            let line = strip_cr(s.subrange(i, e));
            let j: int = if e < s.len() {
                e + 1
            } else {
                e
            };
            seq![line] + lines_from(s, j)
        }
    }
}

fn find_nl_exec(s: &[u8], from: usize) -> (r: usize)
    requires
        from <= s@.len(),
    ensures
        r == find_nl(s@, from as int),
        from <= r <= s@.len(),
{
    let mut i: usize = from;
    while i < s.len()
        invariant
            from <= i <= s@.len(),
            find_nl(s@, from as int) == find_nl(s@, i as int),
        decreases s.len() - i,
    {
        if s[i] == NL {
            return i;
        }
        i += 1;
    }
    i
}

/// Splits the dump bytes into lines.
pub fn split_lines(data: &[u8]) -> (out: Vec<Vec<u8>>)
    ensures
        fields_view(out) == lines_from(data@, 0),
{
    let mut out: Vec<Vec<u8>> = Vec::new();
    let mut i: usize = 0;
    let dlen: usize = data.len();
    proof {
        assert(data@.len() == dlen);
        assert(fields_view(out) + lines_from(data@, 0) =~= lines_from(data@, 0));
    }
    while i < data.len()
        invariant
            i <= data@.len(),
            data@.len() <= usize::MAX,
            lines_from(data@, 0) == fields_view(out) + lines_from(data@, i as int),
        decreases data.len() - i,
    {
        let ghost pre = fields_view(out);
        let e = find_nl_exec(data, i);
        let mut stop = e;
        if e > i && data[e - 1] == CR {
            stop = e - 1;
        }
        let line = copy_range(data, i, stop);
        proof {
            assert(line@ =~= strip_cr(data@.subrange(i as int, e as int)));
        }
        out.push(line);
        let j: usize = if e < data.len() {
            e + 1
        } else {
            e
        };
        proof {
            assert(fields_view(out) =~= pre + seq![line@]);
            assert(lines_from(data@, i as int) == seq![line@] + lines_from(data@, j as int));
            assert(pre + (seq![line@] + lines_from(data@, j as int)) =~= (pre + seq![line@])
                + lines_from(data@, j as int));
        }
        i = j;
    }
    proof {
        assert(fields_view(out) + Seq::<Seq<u8>>::empty() =~= fields_view(out));
    }
    out
}

/// Concatenation of partial decode results; the first failure wins.
pub open spec fn res_cat<T>(
    a: Result<Seq<T>, PipelineError>,
    b: Result<Seq<T>, PipelineError>,
) -> Result<Seq<T>, PipelineError> {
    match a {
        Err(e) => Err(e),
        Ok(x) => match b {
            Err(e) => Err(e),
            Ok(y) => Ok(x + y),
        },
    }
}

pub proof fn lemma_res_cat_assoc<T>(
    a: Result<Seq<T>, PipelineError>,
    b: Result<Seq<T>, PipelineError>,
    c: Result<Seq<T>, PipelineError>,
)
    ensures
        res_cat(res_cat(a, b), c) == res_cat(a, res_cat(b, c)),
{
    if a is Ok && b is Ok && c is Ok {
        assert((a->Ok_0 + b->Ok_0) + c->Ok_0 =~= a->Ok_0 + (b->Ok_0 + c->Ok_0));
    }
}

pub proof fn lemma_res_cat_nil<T>(r: Result<Seq<T>, PipelineError>)
    ensures
        res_cat(Ok(Seq::<T>::empty()), r) == r,
{
    if r is Ok {
        assert(Seq::<T>::empty() + r->Ok_0 =~= r->Ok_0);
    }
}

/// Decoding one users-table row: the id column must read as a number; the
/// username bytes are carried as they stand.
pub open spec fn decode_user_spec(row: Seq<Seq<u8>>) -> Result<(u64, Seq<u8>), PipelineError> {
    match dec_u64_spec(row[0]) {
        Some(u) => Ok((u, row[1])),
        None => Err(PipelineError::MalformedRecord),
    }
}

pub open spec fn decode_user_rows(rows: Seq<Seq<Seq<u8>>>) -> Result<
    Seq<(u64, Seq<u8>)>,
    PipelineError,
>
    decreases rows.len(),
{
    if rows.len() == 0 {
        Ok(Seq::empty())
    } else {
        let one = match decode_user_spec(rows[0]) {
            Ok(p) => Ok(seq![p]),
            Err(e) => Err(e),
        };
        res_cat(one, decode_user_rows(rows.skip(1)))
    }
}

/// What one dump line contributes to the user table: nothing unless it is an
/// insert statement for the users table, else its decoded rows.
pub open spec fn user_line_pairs(line: Seq<u8>) -> Result<Seq<(u64, Seq<u8>)>, PipelineError> {
    if !starts_with(line, user_prefix()) {
        Ok(Seq::empty())
    } else {
        match rows_scan(line, user_prefix().len() as int, 4, 4) {
            None => Err(PipelineError::MalformedRecord),
            Some(rows) => decode_user_rows(rows),
        }
    }
}

pub open spec fn user_pairs_of_lines(ls: Seq<Seq<u8>>) -> Result<
    Seq<(u64, Seq<u8>)>,
    PipelineError,
>
    decreases ls.len(),
{
    if ls.len() == 0 {
        Ok(Seq::empty())
    } else {
        res_cat(user_line_pairs(ls[0]), user_pairs_of_lines(ls.skip(1)))
    }
}

/// Every `(user_id, username)` pair of the users dump, in dump order.
pub open spec fn user_pairs(data: Seq<u8>) -> Result<Seq<(u64, Seq<u8>)>, PipelineError> {
    user_pairs_of_lines(lines_from(data, 0))
}

/// Decoding one scores-table row. A row whose ranked flag is not the literal
/// `1` is skipped. The id, beatmap and total-score columns must read as
/// numbers, the unescaped blob must keep its two quote bytes, and the blob
/// must decode as a mods list; the mods come out canonical (sorted).
pub open spec fn decode_score_spec(row: Seq<Seq<u8>>) -> Result<Option<PreScoreV>, PipelineError> {
    if row[6] != seq![49u8] {
        Ok(None)
    } else {
        match (dec_u64_spec(row[1]), dec_u64_spec(row[3]), dec_u64_spec(row[11])) {
            (Some(u), Some(b), Some(t)) => {
                let blob = unescape_spec(row[12]);
                if blob.len() < 2 {
                    Err(PipelineError::MalformedRecord)
                } else {
                    match mods_of(blob.subrange(1, blob.len() - 1)) {
                        None => Err(PipelineError::BlobDecodeFailure),
                        Some(ms) => Ok(
                            Some(
                                PreScoreV {
                                    user_id: u,
                                    beatmap_id: b,
                                    total_score: t,
                                    pp_raw: row[13],
                                    mods: sort_mods_spec(ms),
                                },
                            ),
                        ),
                    }
                }
            },
            _ => Err(PipelineError::MalformedRecord),
        }
    }
}

pub open spec fn decode_score_rows(rows: Seq<Seq<Seq<u8>>>) -> Result<
    Seq<PreScoreV>,
    PipelineError,
>
    decreases rows.len(),
{
    if rows.len() == 0 {
        Ok(Seq::empty())
    } else {
        let one = match decode_score_spec(rows[0]) {
            Ok(Some(p)) => Ok(seq![p]),
            Ok(None) => Ok(Seq::empty()),
            Err(e) => Err(e),
        };
        res_cat(one, decode_score_rows(rows.skip(1)))
    }
}

pub open spec fn score_line_items(line: Seq<u8>) -> Result<Seq<PreScoreV>, PipelineError> {
    if !starts_with(line, score_prefix()) {
        Ok(Seq::empty())
    } else {
        match rows_scan(line, score_prefix().len() as int, 20, 12) {
            None => Err(PipelineError::MalformedRecord),
            Some(rows) => decode_score_rows(rows),
        }
    }
}

pub open spec fn score_items_of_lines(ls: Seq<Seq<u8>>) -> Result<Seq<PreScoreV>, PipelineError>
    decreases ls.len(),
{
    if ls.len() == 0 {
        Ok(Seq::empty())
    } else {
        res_cat(score_line_items(ls[0]), score_items_of_lines(ls.skip(1)))
    }
}

/// Every ranked, decodable score row of the scores dump, in dump order.
pub open spec fn score_items(data: Seq<u8>) -> Result<Seq<PreScoreV>, PipelineError> {
    score_items_of_lines(lines_from(data, 0))
}

/// Decodes one split users-table row.
fn decode_user_row(row: &Vec<Vec<u8>>) -> (r: Result<UserRecord, PipelineError>)
    requires
        row@.len() == 4,
    ensures
        match r {
            Ok(u) => decode_user_spec(fields_view(*row)) == Ok::<_, PipelineError>(urec_view(u)),
            Err(e) => decode_user_spec(fields_view(*row)) == Err::<(u64, Seq<u8>), _>(e),
        },
{
    match parse_u64(row[0].as_slice()) {
        None => Err(PipelineError::MalformedRecord),
        Some(u) => {
            let name = copy_range(row[1].as_slice(), 0, row[1].len());
            proof {
                assert(name@ =~= fields_view(*row)[1]);
            }
            Ok(UserRecord { user_id: u, username: name })
        },
    }
}

/// Decodes one split scores-table row; `Ok(None)` is a skipped row.
fn decode_score_row(row: &Vec<Vec<u8>>) -> (r: Result<Option<PreScore>, PipelineError>)
    requires
        row@.len() == 20,
    ensures
        match r {
            Ok(Some(p)) => decode_score_spec(fields_view(*row)) == Ok::<_, PipelineError>(
                Some(pre_view(p)),
            ),
            Ok(None) => decode_score_spec(fields_view(*row)) == Ok::<
                Option<PreScoreV>,
                PipelineError,
            >(None),
            Err(e) => decode_score_spec(fields_view(*row)) == Err::<Option<PreScoreV>, _>(e),
        },
{
    let ghost rv = fields_view(*row);
    let ranked = &row[6];
    if !(ranked.len() == 1 && ranked[0] == 49) {
        proof {
            if rv[6] == seq![49u8] {
                assert(rv[6].len() == 1 && rv[6][0] == 49u8);
            }
        }
        return Ok(None);
    }
    assert(rv[6] =~= seq![49u8]);
    let u = match parse_u64(row[1].as_slice()) {
        Some(u) => u,
        None => {
            return Err(PipelineError::MalformedRecord);
        },
    };
    let b = match parse_u64(row[3].as_slice()) {
        Some(b) => b,
        None => {
            return Err(PipelineError::MalformedRecord);
        },
    };
    let t = match parse_u64(row[11].as_slice()) {
        Some(t) => t,
        None => {
            return Err(PipelineError::MalformedRecord);
        },
    };
    let blob = unescape(row[12].as_slice());
    if blob.len() < 2 {
        return Err(PipelineError::MalformedRecord);
    }
    let inner = copy_range(blob.as_slice(), 1, blob.len() - 1);
    let mods = match decode_canonical_mods(inner.as_slice()) {
        None => {
            return Err(PipelineError::BlobDecodeFailure);
        },
        Some(m) => m,
    };
    let pp_raw = copy_range(row[13].as_slice(), 0, row[13].len());
    proof {
        assert(pp_raw@ =~= rv[13]);
    }
    Ok(
        Some(
            PreScore {
                user_id: u,
                beatmap_id: b,
                total_score: t,
                pp_raw,
                mods,
            },
        ),
    )
}

} // verus!

verus! {

/// Every row of one well-split statement has exactly `n` fields.
pub proof fn lemma_rows_scan_lens(s: Seq<u8>, i: int, n: nat, blob_at: int)
    ensures
        rows_scan(s, i, n, blob_at) is Some ==> forall|k: int|
            0 <= k < rows_scan(s, i, n, blob_at)->Some_0.len()
                ==> #[trigger] rows_scan(s, i, n, blob_at)->Some_0[k].len() == n,
    decreases s.len() - i,
{
    if !(i < 0 || i > s.len()) && !(s.len() - i == 1 && s[i] == crate::SEMI) {
        match fields_scan(s, i, n, blob_at) {
            None => {},
            Some(rf) => {
                lemma_fields_scan_bounds(s, i, n, blob_at);
                let f = rf.1;
                if i < f <= s.len() {
                    let j: int = if s.len() - f >= 3 && s[f] == crate::COMMA && s[f + 1]
                        == crate::LPAREN {
                        f + 2
                    } else {
                        f
                    };
                    lemma_rows_scan_lens(s, j, n, blob_at);
                }
            },
        }
    }
}

/// Collects the user pairs of the users dump, statement by statement.
fn collect_user_pairs(data: &[u8]) -> (r: Result<Vec<UserRecord>, PipelineError>)
    ensures
        match r {
            Ok(v) => user_pairs(data@) == Ok::<_, PipelineError>(urecs_view(v)),
            Err(e) => user_pairs(data@) == Err::<Seq<(u64, Seq<u8>)>, _>(e),
        },
{
    let lns = split_lines(data);
    let prefix = user_prefix_vec();
    let mut pairs: Vec<UserRecord> = Vec::new();
    let ghost lv = lines_from(data@, 0);
    let ghost whole = user_pairs_of_lines(lv);
    let mut li: usize = 0;
    proof {
        assert(lv.skip(0) =~= lv);
        assert(urecs_view(pairs) =~= Seq::<(u64, Seq<u8>)>::empty());
        lemma_res_cat_nil(user_pairs_of_lines(lv));
    }
    while li < lns.len()
        invariant
            li <= lns.len(),
            fields_view(lns) == lv,
            lv == lines_from(data@, 0),
            whole == user_pairs_of_lines(lv),
            prefix@ == user_prefix(),
            res_cat(
                Ok::<_, PipelineError>(urecs_view(pairs)),
                user_pairs_of_lines(lv.skip(li as int)),
            ) == whole,
        decreases lns.len() - li,
    {
        let ghost linev = lv[li as int];
        let ghost rest = lv.skip(li as int);
        proof {
            assert(rest[0] == linev);
            assert(rest.skip(1) =~= lv.skip(li + 1));
            assert(user_pairs_of_lines(rest) == res_cat(
                user_line_pairs(linev),
                user_pairs_of_lines(lv.skip(li + 1)),
            ));
        }
        let line = &lns[li];
        proof {
            assert(line@ == linev);
        }
        if has_prefix(line.as_slice(), &prefix) {
            match split_rows(line.as_slice(), prefix.len(), 4, 4) {
                None => {
                    proof {
                        assert(user_line_pairs(linev) == Err::<Seq<(u64, Seq<u8>)>,
                            _,
                        >(PipelineError::MalformedRecord));
                        assert(whole == Err::<Seq<(u64, Seq<u8>)>,
                            _,
                        >(PipelineError::MalformedRecord));
                    }
                    return Err(PipelineError::MalformedRecord);
                },
                Some(rows) => {
                    let ghost rv = rows_view(rows);
                    let ghost tail = user_pairs_of_lines(lv.skip(li + 1));
                    proof {
                        lemma_rows_scan_lens(linev, user_prefix().len() as int, 4, 4);
                        assert(user_line_pairs(linev) == decode_user_rows(rv));
                        assert(rv.skip(0) =~= rv);
                        lemma_res_cat_assoc(
                            Ok::<_, PipelineError>(urecs_view(pairs)),
                            decode_user_rows(rv),
                            tail,
                        );
                    }
                    let mut ri: usize = 0;
                    while ri < rows.len()
                        invariant
                            ri <= rows.len(),
                            rows_view(rows) == rv,
                            lv == lines_from(data@, 0),
                            whole == user_pairs_of_lines(lv),
                            forall|k: int| 0 <= k < rv.len() ==> #[trigger] rv[k].len() == 4,
                            res_cat(
                                res_cat(
                                    Ok::<_, PipelineError>(urecs_view(pairs)),
                                    decode_user_rows(rv.skip(ri as int)),
                                ),
                                tail,
                            ) == whole,
                        decreases rows.len() - ri,
                    {
                        let ghost rrest = rv.skip(ri as int);
                        proof {
                            assert(rrest[0] == rv[ri as int]);
                            assert(rrest.skip(1) =~= rv.skip(ri + 1));
                        }
                        let row = &rows[ri];
                        proof {
                            assert(fields_view(*row) == rv[ri as int]);
                        }
                        match decode_user_row(row) {
                            Err(e) => {
                                proof {
                                    assert(decode_user_rows(rrest) == Err::<Seq<(u64, Seq<u8>)>,
                                        _,
                                    >(e));
                                    assert(whole == Err::<Seq<(u64, Seq<u8>)>, _>(e));
                                }
                                return Err(e);
                            },
                            Ok(u) => {
                                let ghost pv = urecs_view(pairs);
                                pairs.push(u);
                                proof {
                                    assert(urecs_view(pairs) =~= pv + seq![urec_view(u)]);
                                    assert(decode_user_rows(rrest) == res_cat(
                                        Ok::<_, PipelineError>(seq![urec_view(u)]),
                                        decode_user_rows(rv.skip(ri + 1)),
                                    ));
                                    lemma_res_cat_assoc(
                                        Ok::<_, PipelineError>(pv),
                                        Ok::<_, PipelineError>(seq![urec_view(u)]),
                                        decode_user_rows(rv.skip(ri + 1)),
                                    );
                                    assert(res_cat(
                                        Ok::<_, PipelineError>(pv),
                                        Ok::<_, PipelineError>(seq![urec_view(u)]),
                                    ) == Ok::<_, PipelineError>(urecs_view(pairs)));
                                }
                            },
                        }
                        ri += 1;
                    }
                    proof {
                        assert(rv.skip(rv.len() as int).len() == 0);
                        assert(decode_user_rows(rv.skip(ri as int)) == Ok::<_,
                            PipelineError,
                        >(Seq::<(u64, Seq<u8>)>::empty()));
                        assert(urecs_view(pairs) + Seq::<(u64, Seq<u8>)>::empty() =~= urecs_view(
                            pairs,
                        ));
                        lemma_res_cat_assoc(
                            Ok::<_, PipelineError>(urecs_view(pairs)),
                            decode_user_rows(rv.skip(ri as int)),
                            tail,
                        );
                        lemma_res_cat_nil(tail);
                    }
                },
            }
        } else {
            proof {
                assert(user_line_pairs(linev) == Ok::<_, PipelineError>(
                    Seq::<(u64, Seq<u8>)>::empty(),
                ));
                lemma_res_cat_nil(user_pairs_of_lines(lv.skip(li + 1)));
            }
        }
        li += 1;
    }
    proof {
        assert(lv.skip(lv.len() as int).len() == 0);
        assert(user_pairs_of_lines(lv.skip(li as int)) == Ok::<_, PipelineError>(
            Seq::<(u64, Seq<u8>)>::empty(),
        ));
        assert(urecs_view(pairs) + Seq::<(u64, Seq<u8>)>::empty() =~= urecs_view(pairs));
    }
    Ok(pairs)
}

/// The user table as a mapping: later rows for the same id overwrite
/// earlier ones.
pub open spec fn pairs_map(ps: Seq<(u64, Seq<u8>)>) -> Map<u64, Seq<u8>>
    decreases ps.len(),
{
    if ps.len() == 0 {
        Map::empty()
    } else {
        pairs_map(ps.drop_last()).insert(ps.last().0, ps.last().1)
    }
}

pub open spec fn unique_ids(ps: Seq<(u64, Seq<u8>)>) -> bool {
    forall|i: int, j: int| 0 <= i < j < ps.len() ==> ps[i].0 != ps[j].0
}

pub proof fn lemma_pairs_map_update(ps: Seq<(u64, Seq<u8>)>, idx: int, name: Seq<u8>)
    requires
        unique_ids(ps),
        0 <= idx < ps.len(),
    ensures
        pairs_map(ps.update(idx, (ps[idx].0, name))) == pairs_map(ps).insert(ps[idx].0, name),
    decreases ps.len(),
{
    let t = ps.update(idx, (ps[idx].0, name));
    if idx == ps.len() - 1 {
        assert(t.drop_last() =~= ps.drop_last());
        assert(t.last() == (ps[idx].0, name));
        assert(pairs_map(t) =~= pairs_map(ps).insert(ps[idx].0, name));
    } else {
        assert(t.drop_last() =~= ps.drop_last().update(idx, (ps[idx].0, name)));
        assert(ps.drop_last()[idx] == ps[idx]);
        lemma_pairs_map_update(ps.drop_last(), idx, name);
        assert(t.last() == ps.last());
        assert(ps[idx].0 != ps.last().0);
        assert(pairs_map(t) == pairs_map(ps.drop_last()).insert(ps[idx].0, name).insert(
            ps.last().0,
            ps.last().1,
        ));
        assert(pairs_map(ps.drop_last()).insert(ps[idx].0, name).insert(ps.last().0, ps.last().1)
            =~= pairs_map(ps.drop_last()).insert(ps.last().0, ps.last().1).insert(
            ps[idx].0,
            name,
        ));
    }
}

/// Finds the index of the record with the given id, if one is present.
fn find_user_idx(out: &Vec<UserRecord>, u: u64) -> (r: Option<usize>)
    ensures
        match r {
            Some(i) => i < out@.len() && urecs_view(*out)[i as int].0 == u,
            None => forall|j: int| 0 <= j < out@.len() ==> urecs_view(*out)[j].0 != u,
        },
{
    let mut i: usize = 0;
    while i < out.len()
        invariant
            i <= out@.len(),
            forall|j: int| 0 <= j < i ==> urecs_view(*out)[j].0 != u,
        decreases out.len() - i,
    {
        if out[i].user_id == u {
            return Some(i);
        }
        i += 1;
    }
    None
}

/// Collapses the pair stream into a table with unique ids; for each id the
/// last pair seen wins, as repeated insertion into a mapping would have it.
pub fn dedup_users(pairs: Vec<UserRecord>) -> (out: Vec<UserRecord>)
    ensures
        unique_ids(urecs_view(out)),
        pairs_map(urecs_view(out)) == pairs_map(urecs_view(pairs)),
{
    let ghost pv = urecs_view(pairs);
    let mut out: Vec<UserRecord> = Vec::new();
    let mut i: usize = 0;
    proof {
        assert(pv.take(0) =~= Seq::<(u64, Seq<u8>)>::empty());
        assert(urecs_view(out) =~= Seq::<(u64, Seq<u8>)>::empty());
    }
    while i < pairs.len()
        invariant
            i <= pairs.len(),
            pv == urecs_view(pairs),
            unique_ids(urecs_view(out)),
            pairs_map(urecs_view(out)) == pairs_map(pv.take(i as int)),
        decreases pairs.len() - i,
    {
        let ghost ov = urecs_view(out);
        let u = pairs[i].user_id;
        let name = copy_range(pairs[i].username.as_slice(), 0, pairs[i].username.len());
        proof {
            assert(name@ =~= pv[i as int].1);
            assert(pv.take(i + 1).drop_last() =~= pv.take(i as int));
            assert(pv.take(i + 1).last() == pv[i as int]);
        }
        match find_user_idx(&out, u) {
            Some(idx) => {
                proof {
                    lemma_pairs_map_update(ov, idx as int, name@);
                }
                out[idx] = UserRecord { user_id: u, username: name };
                proof {
                    assert(urecs_view(out) =~= ov.update(idx as int, (u, name@)));
                    assert(ov[idx as int].0 == u);
                    assert(forall|a: int, b: int|
                        0 <= a < b < urecs_view(out).len() ==> urecs_view(out)[a].0
                            != urecs_view(out)[b].0);
                }
            },
            None => {
                out.push(UserRecord { user_id: u, username: name });
                proof {
                    assert(urecs_view(out) =~= ov.push((u, name@)));
                    assert(urecs_view(out).drop_last() =~= ov);
                }
            },
        }
        i += 1;
    }
    proof {
        assert(pv.take(pv.len() as int) =~= pv);
    }
    out
}

/// Parses the users dump into the id-to-username table: the decoded pairs
/// of every users insert statement, later pairs overwriting earlier ones.
pub fn parse_user_dump(data: &[u8]) -> (r: Result<Vec<UserRecord>, PipelineError>)
    ensures
        match r {
            Ok(v) => user_pairs(data@) is Ok && unique_ids(urecs_view(v)) && pairs_map(
                urecs_view(v),
            ) == pairs_map(user_pairs(data@)->Ok_0),
            Err(e) => user_pairs(data@) == Err::<Seq<(u64, Seq<u8>)>, _>(e),
        },
{
    match collect_user_pairs(data) {
        Err(e) => Err(e),
        Ok(pairs) => Ok(dedup_users(pairs)),
    }
}

/// Parses the scores dump into the decoded, ranked score records, in dump
/// order, with each record's mods already canonical.
pub fn parse_score_dump(data: &[u8]) -> (r: Result<Vec<PreScore>, PipelineError>)
    ensures
        match r {
            Ok(v) => score_items(data@) == Ok::<_, PipelineError>(pre_views(v)),
            Err(e) => score_items(data@) == Err::<Seq<PreScoreV>, _>(e),
        },
{
    let lns = split_lines(data);
    let prefix = score_prefix_vec();
    let mut items: Vec<PreScore> = Vec::new();
    let ghost lv = lines_from(data@, 0);
    let ghost whole = score_items_of_lines(lv);
    let mut li: usize = 0;
    proof {
        assert(lv.skip(0) =~= lv);
        assert(pre_views(items) =~= Seq::<PreScoreV>::empty());
        lemma_res_cat_nil(score_items_of_lines(lv));
    }
    while li < lns.len()
        invariant
            li <= lns.len(),
            fields_view(lns) == lv,
            lv == lines_from(data@, 0),
            whole == score_items_of_lines(lv),
            prefix@ == score_prefix(),
            res_cat(
                Ok::<_, PipelineError>(pre_views(items)),
                score_items_of_lines(lv.skip(li as int)),
            ) == whole,
        decreases lns.len() - li,
    {
        let ghost linev = lv[li as int];
        let ghost rest = lv.skip(li as int);
        proof {
            assert(rest[0] == linev);
            assert(rest.skip(1) =~= lv.skip(li + 1));
            assert(score_items_of_lines(rest) == res_cat(
                score_line_items(linev),
                score_items_of_lines(lv.skip(li + 1)),
            ));
        }
        let line = &lns[li];
        proof {
            assert(line@ == linev);
        }
        if has_prefix(line.as_slice(), &prefix) {
            match split_rows(line.as_slice(), prefix.len(), 20, 12) {
                None => {
                    proof {
                        assert(score_line_items(linev) == Err::<Seq<PreScoreV>,
                            _,
                        >(PipelineError::MalformedRecord));
                        assert(whole == Err::<Seq<PreScoreV>, _>(PipelineError::MalformedRecord));
                    }
                    return Err(PipelineError::MalformedRecord);
                },
                Some(rows) => {
                    let ghost rv = rows_view(rows);
                    let ghost tail = score_items_of_lines(lv.skip(li + 1));
                    proof {
                        lemma_rows_scan_lens(linev, score_prefix().len() as int, 20, 12);
                        assert(score_line_items(linev) == decode_score_rows(rv));
                        assert(rv.skip(0) =~= rv);
                        lemma_res_cat_assoc(
                            Ok::<_, PipelineError>(pre_views(items)),
                            decode_score_rows(rv),
                            tail,
                        );
                    }
                    let mut ri: usize = 0;
                    while ri < rows.len()
                        invariant
                            ri <= rows.len(),
                            rows_view(rows) == rv,
                            lv == lines_from(data@, 0),
                            whole == score_items_of_lines(lv),
                            forall|k: int| 0 <= k < rv.len() ==> #[trigger] rv[k].len() == 20,
                            res_cat(
                                res_cat(
                                    Ok::<_, PipelineError>(pre_views(items)),
                                    decode_score_rows(rv.skip(ri as int)),
                                ),
                                tail,
                            ) == whole,
                        decreases rows.len() - ri,
                    {
                        let ghost rrest = rv.skip(ri as int);
                        proof {
                            assert(rrest[0] == rv[ri as int]);
                            assert(rrest.skip(1) =~= rv.skip(ri + 1));
                        }
                        let row = &rows[ri];
                        proof {
                            assert(fields_view(*row) == rv[ri as int]);
                        }
                        match decode_score_row(row) {
                            Err(e) => {
                                proof {
                                    assert(decode_score_rows(rrest) == Err::<Seq<PreScoreV>,
                                        _,
                                    >(e));
                                    assert(whole == Err::<Seq<PreScoreV>, _>(e));
                                }
                                return Err(e);
                            },
                            Ok(None) => {
                                proof {
                                    assert(decode_score_rows(rrest) == res_cat(
                                        Ok::<_, PipelineError>(Seq::<PreScoreV>::empty()),
                                        decode_score_rows(rv.skip(ri + 1)),
                                    ));
                                    lemma_res_cat_nil(decode_score_rows(rv.skip(ri + 1)));
                                }
                            },
                            Ok(Some(p)) => {
                                let ghost iv = pre_views(items);
                                items.push(p);
                                proof {
                                    assert(pre_views(items) =~= iv + seq![pre_view(p)]);
                                    assert(decode_score_rows(rrest) == res_cat(
                                        Ok::<_, PipelineError>(seq![pre_view(p)]),
                                        decode_score_rows(rv.skip(ri + 1)),
                                    ));
                                    lemma_res_cat_assoc(
                                        Ok::<_, PipelineError>(iv),
                                        Ok::<_, PipelineError>(seq![pre_view(p)]),
                                        decode_score_rows(rv.skip(ri + 1)),
                                    );
                                    assert(res_cat(
                                        Ok::<_, PipelineError>(iv),
                                        Ok::<_, PipelineError>(seq![pre_view(p)]),
                                    ) == Ok::<_, PipelineError>(pre_views(items)));
                                }
                            },
                        }
                        ri += 1;
                    }
                    proof {
                        assert(rv.skip(rv.len() as int).len() == 0);
                        assert(decode_score_rows(rv.skip(ri as int)) == Ok::<_, PipelineError>(
                            Seq::<PreScoreV>::empty(),
                        ));
                        assert(pre_views(items) + Seq::<PreScoreV>::empty() =~= pre_views(items));
                        lemma_res_cat_assoc(
                            Ok::<_, PipelineError>(pre_views(items)),
                            decode_score_rows(rv.skip(ri as int)),
                            tail,
                        );
                        lemma_res_cat_nil(tail);
                    }
                },
            }
        } else {
            proof {
                assert(score_line_items(linev) == Ok::<_, PipelineError>(
                    Seq::<PreScoreV>::empty(),
                ));
                lemma_res_cat_nil(score_items_of_lines(lv.skip(li + 1)));
            }
        }
        li += 1;
    }
    proof {
        assert(lv.skip(lv.len() as int).len() == 0);
        assert(score_items_of_lines(lv.skip(li as int)) == Ok::<_, PipelineError>(
            Seq::<PreScoreV>::empty(),
        ));
        assert(pre_views(items) + Seq::<PreScoreV>::empty() =~= pre_views(items));
    }
    Ok(items)
}

} // verus!
