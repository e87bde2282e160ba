//! Mods canonicalizer: the capability-descriptor type, the JSON parse of the
//! decoded blob (delegated to serde_json), and the sort by acronym that
//! produces the canonical grouping key.

use vstd::prelude::*;

use crate::bytes::{lex_le, lemma_lex_connex, lemma_lex_trans, bytes_le};

verus! {

/// One gameplay-modifier descriptor. `acronym` is its identity for grouping;
/// `settings`, when present, is the JSON text of the descriptor's settings
/// value, carried through to the output but never compared.
#[derive(Debug, Clone, PartialEq, Eq)]
pub struct Mod {
    pub acronym: Vec<u8>,
    pub settings: Option<Vec<u8>>,
}

/// The mathematical value of one descriptor: its acronym bytes and, when
/// present, its settings text.
pub type ModV = (Seq<u8>, Option<Seq<u8>>);

pub open spec fn mod_view(m: Mod) -> ModV {
    (
        m.acronym@,
        match m.settings {
            Some(s) => Some(s@),
            None => None,
        },
    )
}

pub open spec fn mods_view(v: Vec<Mod>) -> Seq<ModV> {
    v@.map_values(|m: Mod| mod_view(m))
}

/// What serde_json reads out of one decoded blob: the descriptor list under
/// the `mods` key, in blob order, or nothing when the text is not JSON of
/// that shape. The result depends on the blob bytes alone.
pub uninterp spec fn mods_of(blob: Seq<u8>) -> Option<Seq<ModV>>;

/// Wraps the result of `parse_mods_blob` as the value `mods_of` names.
pub open spec fn opt_mods_view(r: Option<Vec<Mod>>) -> Option<Seq<ModV>> {
    match r {
        Some(v) => Some(mods_view(v)),
        None => None,
    }
}

/// Relies on serde_json to decode the blob: `from_slice` parses it as a JSON
/// value, `get` and `as_array` select the `mods` array, `get` and `as_str`
/// read each element's `acronym`, and `is_null` and `to_string` re-serialize
/// its `settings` when one is present. The parse is a pure function of the
/// blob bytes, named `mods_of`.
#[verifier::external_body]
fn parse_mods_blob(blob: &[u8]) -> (r: Option<Vec<Mod>>)
    ensures
        opt_mods_view(r) == mods_of(blob@),
{
    let root: serde_json::Value = serde_json::from_slice(blob).ok()?;
    let items = root.get("mods")?.as_array()?;
    let mut out: Vec<Mod> = Vec::new();
    for item in items {
        let acronym = item.get("acronym")?.as_str()?.as_bytes().to_vec();
        let settings = item.get("settings").filter(|v| !v.is_null()).map(
            |v| v.to_string().into_bytes(),
        );
        out.push(Mod { acronym, settings });
    }
    Some(out)
}

/// Index at which a descriptor with acronym `acr` is inserted into the
/// sorted run `s`: just past every descriptor whose acronym is not greater,
/// so that descriptors sharing an acronym keep their arrival order.
pub open spec fn insert_pos(s: Seq<ModV>, acr: Seq<u8>) -> int
    decreases s.len(),
{
    if s.len() == 0 {
        0
    } else if lex_le(s[0].0, acr) {
        1 + insert_pos(s.skip(1), acr)
    } else {
        0
    }
}

pub open spec fn insert_mod(s: Seq<ModV>, m: ModV) -> Seq<ModV> {
    let p = insert_pos(s, m.0);
    s.take(p) + seq![m] + s.skip(p)
}

/// The canonical form of a descriptor list: sorted ascending by acronym,
/// stable among equal acronyms.
pub open spec fn sort_mods_spec(s: Seq<ModV>) -> Seq<ModV>
    decreases s.len(),
{
    if s.len() == 0 {
        Seq::empty()
    } else {
        insert_mod(sort_mods_spec(s.drop_last()), s.last())
    }
}

pub open spec fn mods_sorted(s: Seq<ModV>) -> bool {
    forall|i: int, j: int| 0 <= i < j < s.len() ==> lex_le(s[i].0, s[j].0)
}

pub proof fn lemma_insert_pos_bounds(s: Seq<ModV>, acr: Seq<u8>)
    ensures
        0 <= insert_pos(s, acr) <= s.len(),
    decreases s.len(),
{
    if s.len() > 0 && lex_le(s[0].0, acr) {
        lemma_insert_pos_bounds(s.skip(1), acr);
    }
}

/// Everything before the insertion point is not greater than `acr`, and
/// everything from it on is strictly greater.
pub proof fn lemma_insert_pos_split(s: Seq<ModV>, acr: Seq<u8>)
    requires
        mods_sorted(s),
    ensures
        forall|i: int| 0 <= i < insert_pos(s, acr) ==> lex_le(#[trigger] s[i].0, acr),
        forall|i: int| insert_pos(s, acr) <= i < s.len() ==> !lex_le(#[trigger] s[i].0, acr),
    decreases s.len(),
{
    lemma_insert_pos_bounds(s, acr);
    if s.len() > 0 {
        assert forall|i: int, j: int| 0 <= i < j < s.skip(1).len() implies lex_le(
            s.skip(1)[i].0,
            s.skip(1)[j].0,
        ) by {
            assert(s.skip(1)[i] == s[i + 1] && s.skip(1)[j] == s[j + 1]);
        }
        lemma_insert_pos_bounds(s.skip(1), acr);
        lemma_insert_pos_split(s.skip(1), acr);
        if lex_le(s[0].0, acr) {
            let p = insert_pos(s, acr);
            assert forall|i: int| 0 <= i < p implies lex_le(#[trigger] s[i].0, acr) by {
                if i > 0 {
                    assert(s.skip(1)[i - 1] == s[i]);
                }
            }
            assert forall|i: int| p <= i < s.len() implies !lex_le(#[trigger] s[i].0, acr) by {
                assert(s.skip(1)[i - 1] == s[i]);
            }
        } else {
            assert forall|i: int| 0 <= i < s.len() implies !lex_le(#[trigger] s[i].0, acr) by {
                if i > 0 && lex_le(s[i].0, acr) {
                    assert(lex_le(s[0].0, s[i].0));
                    lemma_lex_trans(s[0].0, s[i].0, acr);
                }
            }
        }
    }
}

/// Inserting into a sorted run keeps it sorted.
pub proof fn lemma_insert_mod_sorted(s: Seq<ModV>, m: ModV)
    requires
        mods_sorted(s),
    ensures
        mods_sorted(insert_mod(s, m)),
{
    let p = insert_pos(s, m.0);
    lemma_insert_pos_bounds(s, m.0);
    lemma_insert_pos_split(s, m.0);
    let t = insert_mod(s, m);
    assert forall|i: int, j: int| 0 <= i < j < t.len() implies lex_le(t[i].0, t[j].0) by {
        lemma_lex_connex(m.0, m.0);
        if i < p && j == p {
            assert(t[i] == s[i] && t[j] == m);
        } else if i < p && j > p {
            assert(t[i] == s[i] && t[j] == s[j - 1]);
        } else if i == p && j > p {
            assert(t[i] == m && t[j] == s[j - 1]);
            lemma_lex_connex(m.0, s[j - 1].0);
        } else if i > p && j > p {
            assert(t[i] == s[i - 1] && t[j] == s[j - 1]);
        } else if i < p && j < p {
            assert(t[i] == s[i] && t[j] == s[j]);
        } else {
            assert(i == p && j == p && false);
        }
    }
}

/// The canonical form is sorted.
pub proof fn lemma_sort_mods_sorted(s: Seq<ModV>)
    ensures
        mods_sorted(sort_mods_spec(s)),
    decreases s.len(),
{
    if s.len() > 0 {
        lemma_sort_mods_sorted(s.drop_last());
        lemma_insert_mod_sorted(sort_mods_spec(s.drop_last()), s.last());
    }
}

/// Finds the insertion index for `acr` in the already-sorted `out`.
fn find_insert_pos(out: &Vec<Mod>, acr: &Vec<u8>) -> (p: usize)
    ensures
        p == insert_pos(mods_view(*out), acr@),
{
    let ghost s = mods_view(*out);
    let mut i: usize = 0;
    proof {
        lemma_insert_pos_bounds(s, acr@);
        assert(s.skip(0) =~= s);
    }
    while i < out.len()
        invariant
            s == mods_view(*out),
            i <= out.len(),
            out.len() == s.len(),
            insert_pos(s, acr@) == i + insert_pos(s.skip(i as int), acr@),
        decreases out.len() - i,
    {
        let ghost rest = s.skip(i as int);
        assert(rest[0] == s[i as int]);
        if !bytes_le(&out[i].acronym, acr) {
            assert(insert_pos(rest, acr@) == 0);
            return i;
        }
        proof {
            assert(rest.skip(1) =~= s.skip(i + 1));
        }
        i += 1;
    }
    proof {
        assert(s.skip(i as int).len() == 0);
    }
    i
}

/// Sorts a descriptor list ascending by acronym, stably, producing the
/// canonical mods value used as the grouping key.
pub fn canonicalize_mods(mods: Vec<Mod>) -> (out: Vec<Mod>)
    ensures
        mods_view(out) == sort_mods_spec(mods_view(mods)),
{
    let ghost orig = mods_view(mods);
    let mut rev: Vec<Mod> = Vec::new();
    let mut input = mods;
    while input.len() > 0
        invariant
            mods_view(input) + mods_view(rev).reverse() =~= orig,
        decreases input.len(),
    {
        let ghost iv = mods_view(input);
        let ghost rv = mods_view(rev);
        let m = input.pop().unwrap();
        rev.push(m);
        proof {
            assert(mods_view(input) =~= iv.drop_last());
            assert(mods_view(rev) =~= rv.push(mod_view(m)));
            assert(mods_view(rev).reverse() =~= seq![mod_view(m)] + rv.reverse());
            assert(mods_view(input) + mods_view(rev).reverse() =~= iv + rv.reverse());
        }
    }
    let mut out: Vec<Mod> = Vec::new();
    let ghost total = mods_view(rev).reverse().len();
    let ghost done: int = 0;
    proof {
        assert(mods_view(rev).reverse() =~= orig);
        assert(orig.take(0) =~= Seq::<ModV>::empty());
    }
    while rev.len() > 0
        invariant
            mods_view(rev).reverse() =~= orig.skip(orig.len() - mods_view(rev).len()),
            mods_view(rev).len() <= orig.len(),
            mods_view(out) == sort_mods_spec(orig.take(orig.len() - mods_view(rev).len())),
        decreases rev.len(),
    {
        let ghost rv = mods_view(rev);
        let ghost k = orig.len() - rv.len();
        let m = rev.pop().unwrap();
        proof {
            assert(mod_view(m) == rv.last());
            assert(rv.last() == rv.reverse()[0]);
            assert(rv.reverse()[0] == orig[k]);
            assert(mods_view(rev) =~= rv.drop_last());
            assert(rv.reverse() == orig.skip(orig.len() - rv.len()));
            assert(rv.drop_last().reverse() =~= rv.reverse().skip(1));
            assert(rv.reverse().skip(1) =~= orig.skip(k + 1));
            assert(mods_view(rev).reverse() =~= orig.skip(k + 1));
        }
        let p = find_insert_pos(&out, &m.acronym);
        proof {
            lemma_insert_pos_bounds(mods_view(out), m.acronym@);
        }
        out.insert(p, m);
        proof {
            let prev = sort_mods_spec(orig.take(k));
            assert(mods_view(out) =~= insert_mod(prev, orig[k]));
            assert(orig.take(k + 1).drop_last() =~= orig.take(k));
            assert(orig.take(k + 1).last() == orig[k]);
            assert(mods_view(out) == sort_mods_spec(orig.take(k + 1)));
        }
    }
    proof {
        assert(orig.take(orig.len() as int) =~= orig);
    }
    out
}

/// Decodes one blob into its canonical mods: the serde_json parse followed
/// by the stable sort by acronym. `None` reports a blob that did not decode.
pub fn decode_canonical_mods(blob: &[u8]) -> (r: Option<Vec<Mod>>)
    ensures
        match r {
            Some(v) => mods_of(blob@) is Some && mods_view(v) == sort_mods_spec(
                mods_of(blob@)->Some_0,
            ),
            None => mods_of(blob@) is None,
        },
{
    match parse_mods_blob(blob) {
        None => None,
        Some(ms) => Some(canonicalize_mods(ms)),
    }
}

/// The sequence of acronyms of a canonical mods value: the part of the value
/// that grouping compares.
pub open spec fn acronyms(s: Seq<ModV>) -> Seq<Seq<u8>> {
    s.map_values(|m: ModV| m.0)
}

/// Whether two descriptor lists agree as grouping keys: same acronyms in the
/// same order.
pub fn mods_key_eq(a: &Vec<Mod>, b: &Vec<Mod>) -> (r: bool)
    ensures
        r == (acronyms(mods_view(*a)) == acronyms(mods_view(*b))),
{
    let ghost av = acronyms(mods_view(*a));
    let ghost bv = acronyms(mods_view(*b));
    if a.len() != b.len() {
        proof {
            assert(av.len() != bv.len());
        }
        return false;
    }
    let mut i: usize = 0;
    while i < a.len()
        invariant
            i <= a.len(),
            a.len() == b.len(),
            av.len() == a.len() && bv.len() == b.len(),
            av == acronyms(mods_view(*a)) && bv == acronyms(mods_view(*b)),
            forall|j: int| 0 <= j < i ==> av[j] == bv[j],
        decreases a.len() - i,
    {
        let ea = &a[i].acronym;
        let eb = &b[i].acronym;
        if ea.len() != eb.len() {
            assert(av[i as int] != bv[i as int]);
            return false;
        }
        let mut k: usize = 0;
        while k < ea.len()
            invariant
                k <= ea.len(),
                ea.len() == eb.len(),
                0 <= i < av.len(),
                av.len() == bv.len(),
                av == acronyms(mods_view(*a)) && bv == acronyms(mods_view(*b)),
                ea@ == av[i as int] && eb@ == bv[i as int],
                forall|t: int| 0 <= t < k ==> ea@[t] == eb@[t],
            decreases ea.len() - k,
        {
            if ea[k] != eb[k] {
                assert(av[i as int] != bv[i as int]);
                return false;
            }
            k += 1;
        }
        assert(av[i as int] =~= bv[i as int]);
        i += 1;
    }
    proof {
        assert(av =~= bv);
    }
    true
}

} // verus!
