//! Record splitter: tokenizes the escaped value tuples of one dump statement
//! into raw field byte slices, honouring one-byte backslash lookback and, for
//! the designated blob field, bracket nesting.

use vstd::prelude::*;

use crate::{BSLASH, COMMA, LPAREN, RPAREN, LBRACK, RBRACK, LBRACE, RBRACE, SEMI};

verus! {

/// Position of the first separator (`,` or `)`) not preceded by a backslash,
/// scanning from `i`; `esc` says whether the byte before `i` was a backslash.
pub open spec fn plain_scan(s: Seq<u8>, i: int, esc: bool) -> Option<int>
    decreases s.len() - i,
{
    if i < 0 || i >= s.len() {
        None
    } else if !esc && (s[i] == COMMA || s[i] == RPAREN) {
        Some(i)
    } else {
        plain_scan(s, i + 1, s[i] == BSLASH)
    }
}

/// Position of the first comma that is not preceded by a backslash and sits
/// at bracket depth zero; an escaped bracket does not change the depth.
pub open spec fn blob_scan(s: Seq<u8>, i: int, esc: bool, depth: int) -> Option<int>
    decreases s.len() - i,
{
    if i < 0 || i >= s.len() {
        None
    } else if esc {
        blob_scan(s, i + 1, s[i] == BSLASH, depth)
    } else if s[i] == COMMA && depth == 0 {
        Some(i)
    } else if s[i] == LPAREN || s[i] == LBRACK || s[i] == LBRACE {
        blob_scan(s, i + 1, false, depth + 1)
    } else if s[i] == RPAREN || s[i] == RBRACK || s[i] == RBRACE {
        blob_scan(s, i + 1, false, depth - 1)
    } else {
        blob_scan(s, i + 1, s[i] == BSLASH, depth)
    }
}

pub proof fn lemma_plain_scan_bounds(s: Seq<u8>, i: int, esc: bool)
    ensures
        plain_scan(s, i, esc) is Some ==> i <= plain_scan(s, i, esc)->Some_0 < s.len(),
    decreases s.len() - i,
{
    if 0 <= i < s.len() && !(!esc && (s[i] == COMMA || s[i] == RPAREN)) {
        lemma_plain_scan_bounds(s, i + 1, s[i] == BSLASH);
    }
}

pub proof fn lemma_blob_scan_bounds(s: Seq<u8>, i: int, esc: bool, depth: int)
    ensures
        blob_scan(s, i, esc, depth) is Some ==> i <= blob_scan(s, i, esc, depth)->Some_0
            < s.len(),
    decreases s.len() - i,
{
    if 0 <= i < s.len() {
        if esc {
            lemma_blob_scan_bounds(s, i + 1, s[i] == BSLASH, depth);
        } else if s[i] == COMMA && depth == 0 {
        } else if s[i] == LPAREN || s[i] == LBRACK || s[i] == LBRACE {
            lemma_blob_scan_bounds(s, i + 1, false, depth + 1);
        } else if s[i] == RPAREN || s[i] == RBRACK || s[i] == RBRACE {
            lemma_blob_scan_bounds(s, i + 1, false, depth - 1);
        } else {
            lemma_blob_scan_bounds(s, i + 1, s[i] == BSLASH, depth);
        }
    }
}

/// Finds the end of one plain field starting at `from`.
pub fn scan_plain(s: &[u8], from: usize) -> (r: Option<usize>)
    ensures
        match r {
            Some(e) => plain_scan(s@, from as int, false) == Some(e as int) && from <= e
                < s@.len(),
            None => plain_scan(s@, from as int, false) is None,
        },
{
    let mut i: usize = from;
    let mut esc: bool = false;
    while i < s.len()
        invariant
            from <= i,
            plain_scan(s@, from as int, false) == plain_scan(s@, i as int, esc),
        decreases s.len() - i,
    {
        if !esc && (s[i] == COMMA || s[i] == RPAREN) {
            return Some(i);
        }
        esc = s[i] == BSLASH;
        i += 1;
    }
    None
}

/// Finds the end of the blob field starting at `from`. The depth counter is
/// wide enough that it cannot overflow on any slice that fits in memory.
pub fn scan_blob(s: &[u8], from: usize) -> (r: Option<usize>)
    ensures
        match r {
            Some(e) => blob_scan(s@, from as int, false, 0) == Some(e as int) && from <= e
                < s@.len(),
            None => blob_scan(s@, from as int, false, 0) is None,
        },
{
    let mut i: usize = from;
    let mut esc: bool = false;
    let mut depth: i128 = 0;
    while i < s.len()
        invariant
            from <= i,
            -(i as int) <= depth as int <= i as int,
            blob_scan(s@, from as int, false, 0) == blob_scan(s@, i as int, esc, depth as int),
        decreases s.len() - i,
    {
        let b = s[i];
        if esc {
            esc = b == BSLASH;
        } else if b == COMMA && depth == 0 {
            return Some(i);
        } else if b == LPAREN || b == LBRACK || b == LBRACE {
            depth += 1;
            esc = false;
        } else if b == RPAREN || b == RBRACK || b == RBRACE {
            depth -= 1;
            esc = false;
        } else {
            esc = b == BSLASH;
        }
        i += 1;
    }
    None
}

/// The views of a list of raw fields.
pub open spec fn fields_view(v: Vec<Vec<u8>>) -> Seq<Seq<u8>> {
    v@.map_values(|f: Vec<u8>| f@)
}

/// The views of a list of rows of raw fields.
pub open spec fn rows_view(v: Vec<Vec<Vec<u8>>>) -> Seq<Seq<Seq<u8>>> {
    v@.map_values(|r: Vec<Vec<u8>>| fields_view(r))
}

/// Scans `n` consecutive fields from `i`; the field `blob_at` fields ahead
/// (if any) uses the bracket-depth scan. Yields the raw field contents and
/// the position just past the final separator.
pub open spec fn fields_scan(s: Seq<u8>, i: int, n: nat, blob_at: int) -> Option<
    (Seq<Seq<u8>>, int),
>
    decreases n,
{
    if i < 0 || i > s.len() {
        None
    } else if n == 0 {
        Some((Seq::empty(), i))
    } else {
        let end = if blob_at == 0 {
            blob_scan(s, i, false, 0)
        } else {
            plain_scan(s, i, false)
        };
        match end {
            Some(e) => match fields_scan(s, e + 1, (n - 1) as nat, blob_at - 1) {
                Some(rf) => Some((seq![s.subrange(i, e)] + rf.0, rf.1)),
                None => None,
            },
            None => None,
        }
    }
}

pub proof fn lemma_fields_scan_bounds(s: Seq<u8>, i: int, n: nat, blob_at: int)
    ensures
        fields_scan(s, i, n, blob_at) is Some ==> {
            let rf = fields_scan(s, i, n, blob_at)->Some_0;
            rf.0.len() == n && i <= rf.1 <= s.len() && (n > 0 ==> i < rf.1)
        },
    decreases n,
{
    if n > 0 {
        let end = if blob_at == 0 {
            blob_scan(s, i, false, 0)
        } else {
            plain_scan(s, i, false)
        };
        lemma_plain_scan_bounds(s, i, false);
        lemma_blob_scan_bounds(s, i, false, 0);
        if end is Some {
            lemma_fields_scan_bounds(s, end->Some_0 + 1, (n - 1) as nat, blob_at - 1);
        }
    }
}

/// Copies `s[a..b]` into a fresh vector.
pub fn copy_range(s: &[u8], a: usize, b: usize) -> (out: Vec<u8>)
    requires
        a <= b <= s@.len(),
    ensures
        out@ == s@.subrange(a as int, b as int),
{
    let mut out: Vec<u8> = Vec::new();
    let mut i: usize = a;
    while i < b
        invariant
            a <= i <= b <= s@.len(),
            out@ == s@.subrange(a as int, i as int),
        decreases b - i,
    {
        out.push(s[i]);
        proof {
            assert(s@.subrange(a as int, i as int).push(s@[i as int]) =~= s@.subrange(
                a as int,
                i + 1,
            ));
        }
        i += 1;
    }
    out
}

/// Appends a prefix of fields in front of a pending scan result.
pub open spec fn opt_fields(pre: Seq<Seq<u8>>, o: Option<(Seq<Seq<u8>>, int)>) -> Option<
    (Seq<Seq<u8>>, int),
> {
    match o {
        Some(rf) => Some((pre + rf.0, rf.1)),
        None => None,
    }
}

/// Splits one row of `n` fields beginning at `start`; field `blob_idx` (pass
/// `n` or more for none) ends at a depth-zero comma instead of a separator.
pub fn split_fields(s: &[u8], start: usize, n: usize, blob_idx: usize) -> (r: Option<
    (Vec<Vec<u8>>, usize),
>)
    ensures
        match r {
            Some(rv) => fields_scan(s@, start as int, n as nat, blob_idx as int) == Some(
                (fields_view(rv.0), rv.1 as int),
            ) && rv.1 <= s@.len(),
            None => fields_scan(s@, start as int, n as nat, blob_idx as int) is None,
        },
{
    let slen: usize = s.len();
    if start > slen {
        return None;
    }
    let mut acc: Vec<Vec<u8>> = Vec::new();
    let mut i: usize = start;
    let mut j: usize = 0;
    proof {
        assert(fields_view(acc) + fields_scan(s@, start as int, n as nat, blob_idx as int)->Some_0.0
            =~= fields_scan(s@, start as int, n as nat, blob_idx as int)->Some_0.0);
    }
    while j < n
        invariant
            j <= n,
            i <= s@.len(),
            s@.len() <= usize::MAX,
            fields_scan(s@, start as int, n as nat, blob_idx as int) == opt_fields(
                fields_view(acc),
                fields_scan(s@, i as int, (n - j) as nat, blob_idx - j),
            ),
        decreases n - j,
    {
        let ghost pre = fields_view(acc);
        let end = if blob_idx == j {
            scan_blob(s, i)
        } else {
            assert(blob_idx - j != 0);
            scan_plain(s, i)
        };
        match end {
            None => {
                return None;
            },
            Some(e) => {
                let field = copy_range(s, i, e);
                acc.push(field);
                proof {
                    let rest = fields_scan(s@, e + 1, (n - j - 1) as nat, blob_idx - j - 1);
                    assert(fields_scan(s@, i as int, (n - j) as nat, blob_idx - j) == opt_fields(
                        seq![s@.subrange(i as int, e as int)],
                        rest,
                    ));
                    assert(fields_view(acc) =~= pre + seq![s@.subrange(i as int, e as int)]);
                    if rest is Some {
                        assert((pre + seq![s@.subrange(i as int, e as int)]) + rest->Some_0.0
                            =~= pre + (seq![s@.subrange(i as int, e as int)] + rest->Some_0.0));
                    }
                }
                i = e + 1;
            },
        }
        j += 1;
    }
    proof {
        assert(fields_scan(s@, i as int, 0, blob_idx - j) == Some(
            (Seq::<Seq<u8>>::empty(), i as int),
        ));
        assert(fields_view(acc) + Seq::<Seq<u8>>::empty() =~= fields_view(acc));
    }
    Some((acc, i))
}

/// Scans the value tuples of one statement from `i` to the closing `;`: one
/// row, then either `,(` and the next row, or the terminator. Anything else
/// means the scan lost sync, which is fatal.
pub open spec fn rows_scan(s: Seq<u8>, i: int, n: nat, blob_at: int) -> Option<Seq<Seq<Seq<u8>>>>
    decreases s.len() - i,
{
    if i < 0 || i > s.len() {
        None
    } else if s.len() - i == 1 && s[i] == SEMI {
        Some(Seq::empty())
    } else {
        match fields_scan(s, i, n, blob_at) {
            None => None,
            Some(rf) => {
                let f = rf.1;
                if !(i < f <= s.len()) {
                    None
                } else {
                    let j: int = if s.len() - f >= 3 && s[f] == COMMA && s[f + 1] == LPAREN {
                        f + 2
                    } else {
                        f
                    };
                    match rows_scan(s, j, n, blob_at) {
                        None => None,
                        Some(rest) => Some(seq![rf.0] + rest),
                    }
                }
            },
        }
    }
}

/// Appends already-split rows in front of a pending scan result.
pub open spec fn opt_rows(pre: Seq<Seq<Seq<u8>>>, o: Option<Seq<Seq<Seq<u8>>>>) -> Option<
    Seq<Seq<Seq<u8>>>,
> {
    match o {
        Some(rest) => Some(pre + rest),
        None => None,
    }
}

/// Splits every row of one statement, starting just past the opening `(` of
/// the first tuple; `None` reports a malformed statement.
pub fn split_rows(s: &[u8], start: usize, n: usize, blob_idx: usize) -> (r: Option<
    Vec<Vec<Vec<u8>>>,
>)
    requires
        n >= 1,
    ensures
        match r {
            Some(rows) => rows_scan(s@, start as int, n as nat, blob_idx as int) == Some(
                rows_view(rows),
            ),
            None => rows_scan(s@, start as int, n as nat, blob_idx as int) is None,
        },
{
    let slen: usize = s.len();
    if start > slen {
        return None;
    }
    let mut acc: Vec<Vec<Vec<u8>>> = Vec::new();
    let mut i: usize = start;
    proof {
        let whole = rows_scan(s@, start as int, n as nat, blob_idx as int);
        if whole is Some {
            assert(rows_view(acc) + whole->Some_0 =~= whole->Some_0);
        }
    }
    loop
        invariant
            i <= s@.len(),
            s@.len() <= usize::MAX,
            n >= 1,
            rows_scan(s@, start as int, n as nat, blob_idx as int) == opt_rows(
                rows_view(acc),
                rows_scan(s@, i as int, n as nat, blob_idx as int),
            ),
        decreases s@.len() - i,
    {
        let ghost pre = rows_view(acc);
        if s.len() - i == 1 && s[i] == SEMI {
            proof {
                assert(rows_scan(s@, i as int, n as nat, blob_idx as int) == Some(
                    Seq::<Seq<Seq<u8>>>::empty(),
                ));
                assert(pre + Seq::<Seq<Seq<u8>>>::empty() =~= pre);
            }
            return Some(acc);
        }
        match split_fields(s, i, n, blob_idx) {
            None => {
                return None;
            },
            Some((row, f)) => {
                proof {
                    lemma_fields_scan_bounds(s@, i as int, n as nat, blob_idx as int);
                }
                let ghost rowv = fields_view(row);
                acc.push(row);
                let j: usize = if s.len() - f >= 3 && s[f] == COMMA && s[f + 1] == LPAREN {
                    f + 2
                } else {
                    f
                };
                proof {
                    let rest = rows_scan(s@, j as int, n as nat, blob_idx as int);
                    assert(rows_scan(s@, i as int, n as nat, blob_idx as int) == opt_rows(
                        seq![rowv],
                        rest,
                    ));
                    assert(rows_view(acc) =~= pre + seq![rowv]);
                    if rest is Some {
                        assert((pre + seq![rowv]) + rest->Some_0 =~= pre + (seq![rowv]
                            + rest->Some_0));
                    }
                }
                assert(j > i);
                i = j;
            },
        }
    }
}

} // verus!

verus! {

/// Whether the escaped forms of the fields `fs` sit at position `i` of
/// `s`, each followed by its separator: a comma, or a closing parenthesis
/// after the last field.
pub open spec fn encoded_at(s: Seq<u8>, i: int, fs: Seq<Seq<u8>>) -> bool
    decreases fs.len(),
{
    if fs.len() == 0 {
        true
    } else {
        let e = crate::bytes::escape_spec(fs[0]);
        &&& i + e.len() < s.len()
        &&& (forall|j: int| 0 <= j < e.len() ==> s[i + j] == e[j])
        &&& s[i + e.len()] == (if fs.len() == 1 {
            RPAREN
        } else {
            COMMA
        })
        &&& encoded_at(s, i + e.len() + 1, fs.skip(1))
    }
}

/// The plain-field scan runs over an escaped field without stopping, from
/// any lookback state, and stops at the unescaped separator after it; the
/// one field shape it cannot carry is a trailing backslash.
pub proof fn lemma_plain_scan_escaped(s: Seq<u8>, i: int, f: Seq<u8>, esc0: bool)
    requires
        0 <= i,
        i + crate::bytes::escape_spec(f).len() < s.len(),
        forall|j: int|
            0 <= j < crate::bytes::escape_spec(f).len() ==> s[i + j]
                == crate::bytes::escape_spec(f)[j],
        s[i + crate::bytes::escape_spec(f).len()] == COMMA || s[i + crate::bytes::escape_spec(
            f,
        ).len()] == RPAREN,
        f.len() == 0 ==> !esc0,
        f.len() > 0 ==> f.last() != BSLASH,
    ensures
        plain_scan(s, i, esc0) == Some(i + crate::bytes::escape_spec(f).len() as int),
    decreases f.len(),
{
    let e = crate::bytes::escape_spec(f);
    if f.len() == 0 {
        assert(e.len() == 0);
    } else {
        let f0 = f[0];
        let frest = f.skip(1);
        assert(f.len() > 1 ==> frest.last() == f.last());
        if crate::bytes::needs_escape(f0) {
            assert(e == seq![BSLASH, f0] + crate::bytes::escape_spec(frest));
            assert(s[i + 0] == e[0] && s[i + 1] == e[1]);
            assert(s[i] == BSLASH && s[i + 1] == f0);
            let erest = crate::bytes::escape_spec(frest);
            assert forall|j: int| 0 <= j < erest.len() implies s[i + 2 + j] == erest[j] by {
                assert(e[j + 2] == erest[j]);
            }
            assert(plain_scan(s, i, esc0) == plain_scan(s, i + 1, true));
            assert(plain_scan(s, i + 1, true) == plain_scan(s, i + 2, f0 == BSLASH));
            if frest.len() == 0 {
                assert(f.last() == f0);
                assert(f0 != BSLASH);
            }
            lemma_plain_scan_escaped(s, i + 2, frest, f0 == BSLASH);
        } else {
            assert(e == seq![f0] + crate::bytes::escape_spec(frest));
            assert(s[i + 0] == e[0]);
            assert(s[i] == f0);
            assert(f0 != COMMA && f0 != RPAREN && f0 != BSLASH);
            let erest = crate::bytes::escape_spec(frest);
            assert forall|j: int| 0 <= j < erest.len() implies s[i + 1 + j] == erest[j] by {
                assert(e[j + 1] == erest[j]);
            }
            assert(plain_scan(s, i, esc0) == plain_scan(s, i + 1, false));
            lemma_plain_scan_escaped(s, i + 1, frest, false);
        }
    }
}

/// The blob scan runs over an escaped field the same way: every bracket
/// and comma in the field is escaped, so the depth never moves and the
/// scan stops at the unescaped comma after the field.
pub proof fn lemma_blob_scan_escaped(s: Seq<u8>, i: int, f: Seq<u8>, esc0: bool)
    requires
        0 <= i,
        i + crate::bytes::escape_spec(f).len() < s.len(),
        forall|j: int|
            0 <= j < crate::bytes::escape_spec(f).len() ==> s[i + j]
                == crate::bytes::escape_spec(f)[j],
        s[i + crate::bytes::escape_spec(f).len()] == COMMA,
        f.len() == 0 ==> !esc0,
        f.len() > 0 ==> f.last() != BSLASH,
    ensures
        blob_scan(s, i, esc0, 0) == Some(i + crate::bytes::escape_spec(f).len() as int),
    decreases f.len(),
{
    let e = crate::bytes::escape_spec(f);
    if f.len() == 0 {
        assert(e.len() == 0);
    } else {
        let f0 = f[0];
        let frest = f.skip(1);
        assert(f.len() > 1 ==> frest.last() == f.last());
        if crate::bytes::needs_escape(f0) {
            assert(e == seq![BSLASH, f0] + crate::bytes::escape_spec(frest));
            assert(s[i + 0] == e[0] && s[i + 1] == e[1]);
            assert(s[i] == BSLASH && s[i + 1] == f0);
            let erest = crate::bytes::escape_spec(frest);
            assert forall|j: int| 0 <= j < erest.len() implies s[i + 2 + j] == erest[j] by {
                assert(e[j + 2] == erest[j]);
            }
            assert(blob_scan(s, i, esc0, 0) == blob_scan(s, i + 1, true, 0));
            assert(blob_scan(s, i + 1, true, 0) == blob_scan(s, i + 2, f0 == BSLASH, 0));
            if frest.len() == 0 {
                assert(f.last() == f0);
                assert(f0 != BSLASH);
            }
            lemma_blob_scan_escaped(s, i + 2, frest, f0 == BSLASH);
        } else {
            assert(e == seq![f0] + crate::bytes::escape_spec(frest));
            assert(s[i + 0] == e[0]);
            assert(s[i] == f0);
            assert(f0 != COMMA && f0 != BSLASH);
            assert(f0 != LPAREN && f0 != LBRACK && f0 != LBRACE);
            assert(f0 != RPAREN && f0 != RBRACK && f0 != RBRACE);
            let erest = crate::bytes::escape_spec(frest);
            assert forall|j: int| 0 <= j < erest.len() implies s[i + 1 + j] == erest[j] by {
                assert(e[j + 1] == erest[j]);
            }
            assert(blob_scan(s, i, esc0, 0) == blob_scan(s, i + 1, false, 0));
            lemma_blob_scan_escaped(s, i + 1, frest, false);
        }
    }
}

/// Round trip: splitting a row built by escaping each field value recovers
/// exactly those values once each raw slice is unescaped. Holds for every
/// choice of field values that do not end in a backslash — under one-byte
/// lookback a trailing backslash would hide the separator — and for any
/// blob position other than the last field, whose terminator is no comma.
pub proof fn lemma_split_round_trip(s: Seq<u8>, i: int, fs: Seq<Seq<u8>>, blob_at: int)
    requires
        0 <= i,
        fs.len() >= 1,
        blob_at != fs.len() - 1,
        forall|k: int|
            0 <= k < fs.len() ==> (#[trigger] fs[k]).len() == 0 || fs[k].last() != BSLASH,
        encoded_at(s, i, fs),
    ensures
        ({
            let r = fields_scan(s, i, fs.len() as nat, blob_at);
            &&& r is Some
            &&& r->Some_0.0.len() == fs.len()
            &&& forall|k: int|
                0 <= k < fs.len() ==> crate::bytes::unescape_spec(#[trigger] r->Some_0.0[k])
                    == fs[k]
        }),
    decreases fs.len(),
{
    let e = crate::bytes::escape_spec(fs[0]);
    let end = i + e.len();
    assert(s.subrange(i, end) =~= e);
    if blob_at == 0 {
        lemma_blob_scan_escaped(s, i, fs[0], false);
    } else {
        lemma_plain_scan_escaped(s, i, fs[0], false);
    }
    crate::bytes::lemma_unescape_escape(fs[0]);
    if fs.len() == 1 {
        let r = fields_scan(s, i, 1, blob_at);
        assert(fields_scan(s, end + 1, 0, blob_at - 1) == Some(
            (Seq::<Seq<u8>>::empty(), end + 1),
        ));
        assert(r == Some((seq![s.subrange(i, end)] + Seq::<Seq<u8>>::empty(), end + 1)));
        assert(r->Some_0.0 =~= seq![e]);
    } else {
        assert forall|k: int|
            0 <= k < fs.skip(1).len() implies (#[trigger] fs.skip(1)[k]).len() == 0 || fs.skip(
            1,
        )[k].last() != BSLASH by {
            assert(fs.skip(1)[k] == fs[k + 1]);
        }
        lemma_split_round_trip(s, end + 1, fs.skip(1), blob_at - 1);
        let rest = fields_scan(s, end + 1, (fs.len() - 1) as nat, blob_at - 1);
        let r = fields_scan(s, i, fs.len() as nat, blob_at);
        assert(r == Some((seq![s.subrange(i, end)] + rest->Some_0.0, rest->Some_0.1)));
        assert forall|k: int|
            0 <= k < fs.len() implies crate::bytes::unescape_spec(#[trigger] r->Some_0.0[k])
            == fs[k] by {
            if k == 0 {
                assert(r->Some_0.0[0] == e);
            } else {
                assert(r->Some_0.0[k] == rest->Some_0.0[k - 1]);
                assert(fs.skip(1)[k - 1] == fs[k]);
            }
        }
    }
}

} // verus!
