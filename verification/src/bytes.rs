//! Field-level byte transformations: backslash unescaping and its inverse,
//! decimal integer decoding, and lexicographic order on byte strings.

use vstd::prelude::*;

use crate::BSLASH;

verus! {

/// The decoded form of an escaped byte string: one backslash is removed
/// before each escaped byte; every other byte passes through unchanged.
/// A trailing lone backslash escapes nothing and is dropped.
pub open spec fn unescape_spec(s: Seq<u8>) -> Seq<u8>
    decreases s.len(),
{
    if s.len() == 0 {
        Seq::empty()
    } else if s[0] == BSLASH {
        if s.len() == 1 {
            Seq::empty()
        } else {
            seq![s[1]] + unescape_spec(s.skip(2))
        }
    } else {
        seq![s[0]] + unescape_spec(s.skip(1))
    }
}

/// Bytes that the encoder protects with a backslash: the backslash itself,
/// the field separators, the three bracket pairs, and both quote characters.
pub open spec fn needs_escape(b: u8) -> bool {
    b == 92 || b == 44 || b == 40 || b == 41 || b == 91 || b == 93 || b == 123 || b == 125
        || b == 34 || b == 39
}

/// The escaped form of a byte string: a backslash is inserted before every
/// byte that `needs_escape` names.
pub open spec fn escape_spec(s: Seq<u8>) -> Seq<u8>
    decreases s.len(),
{
    if s.len() == 0 {
        Seq::empty()
    } else if needs_escape(s[0]) {
        seq![BSLASH, s[0]] + escape_spec(s.skip(1))
    } else {
        seq![s[0]] + escape_spec(s.skip(1))
    }
}

/// Decoding inverts encoding: unescaping an escaped byte string gives back
/// the original bytes, whatever they were.
pub proof fn lemma_unescape_escape(s: Seq<u8>)
    ensures
        unescape_spec(escape_spec(s)) == s,
    decreases s.len(),
{
    if s.len() == 0 {
        assert(unescape_spec(escape_spec(s)) =~= s);
    } else {
        lemma_unescape_escape(s.skip(1));
        if needs_escape(s[0]) {
            let e = escape_spec(s);
            assert(e == seq![BSLASH, s[0]] + escape_spec(s.skip(1)));
            assert(e[0] == BSLASH && e[1] == s[0]);
            assert(e.skip(2) =~= escape_spec(s.skip(1)));
            assert(unescape_spec(e) =~= s);
        } else {
            let e = escape_spec(s);
            assert(e[0] == s[0] && e[0] != BSLASH);
            assert(e.skip(1) =~= escape_spec(s.skip(1)));
            assert(unescape_spec(e) =~= s);
        }
    }
}

/// Removes one backslash before each escaped byte; a byte that follows an
/// unescaped backslash is kept as it is.
pub fn unescape(data: &[u8]) -> (out: Vec<u8>)
    ensures
        out@ == unescape_spec(data@),
{
    let mut out: Vec<u8> = Vec::new();
    let mut i: usize = 0;
    proof {
        assert(data@.skip(0) =~= data@);
        assert(out@ + unescape_spec(data@) =~= unescape_spec(data@));
    }
    while i < data.len()
        invariant
            i <= data.len(),
            unescape_spec(data@) == out@ + unescape_spec(data@.skip(i as int)),
        decreases data.len() - i,
    {
        let ghost pre = out@;
        let ghost rest = data@.skip(i as int);
        if data[i] == BSLASH {
            if i + 1 < data.len() {
                out.push(data[i + 1]);
                proof {
                    assert(rest[0] == BSLASH && rest.len() >= 2);
                    assert(rest[1] == data@[i + 1]);
                    assert(rest.skip(2) =~= data@.skip(i + 2));
                    assert(pre + unescape_spec(rest) =~= out@ + unescape_spec(data@.skip(i + 2)));
                }
                i += 2;
            } else {
                proof {
                    assert(rest.len() == 1 && rest[0] == BSLASH);
                    assert(data@.skip(i + 1) =~= Seq::<u8>::empty());
                    assert(pre + unescape_spec(rest) =~= out@ + unescape_spec(data@.skip(i + 1)));
                }
                i += 1;
            }
        } else {
            out.push(data[i]);
            proof {
                assert(rest[0] == data@[i as int] && rest[0] != BSLASH);
                assert(rest.skip(1) =~= data@.skip(i + 1));
                assert(pre + unescape_spec(rest) =~= out@ + unescape_spec(data@.skip(i + 1)));
            }
            i += 1;
        }
    }
    proof {
        assert(data@.skip(data@.len() as int) =~= Seq::<u8>::empty());
        assert(out@ + unescape_spec(Seq::<u8>::empty()) =~= out@);
    }
    out
}

/// Inserts one backslash before every byte that the record grammar treats
/// specially, so that a later scan sees those bytes as literals.
pub fn escape(data: &[u8]) -> (out: Vec<u8>)
    ensures
        out@ == escape_spec(data@),
{
    let mut out: Vec<u8> = Vec::new();
    let mut i: usize = 0;
    proof {
        assert(data@.skip(0) =~= data@);
        assert(out@ + escape_spec(data@) =~= escape_spec(data@));
    }
    while i < data.len()
        invariant
            i <= data.len(),
            escape_spec(data@) == out@ + escape_spec(data@.skip(i as int)),
        decreases data.len() - i,
    {
        let ghost pre = out@;
        let ghost rest = data@.skip(i as int);
        let b = data[i];
        if b == 92 || b == 44 || b == 40 || b == 41 || b == 91 || b == 93 || b == 123 || b == 125
            || b == 34 || b == 39 {
            out.push(BSLASH);
            out.push(b);
        } else {
            out.push(b);
        }
        proof {
            assert(rest[0] == data@[i as int]);
            assert(rest.skip(1) =~= data@.skip(i + 1));
            if needs_escape(data@[i as int]) {
                assert(pre + unit2(data@[i as int]) + escape_spec(data@.skip(i + 1)) =~= out@
                    + escape_spec(data@.skip(i + 1)));
                assert(pre + escape_spec(rest) =~= out@ + escape_spec(data@.skip(i + 1)));
            } else {
                assert(pre + escape_spec(rest) =~= out@ + escape_spec(data@.skip(i + 1)));
            }
        }
        i += 1;
    }
    proof {
        assert(data@.skip(data@.len() as int) =~= Seq::<u8>::empty());
        assert(out@ + escape_spec(Seq::<u8>::empty()) =~= out@);
    }
    out
}

/// The two-byte escaped form of one byte.
pub open spec fn unit2(b: u8) -> Seq<u8> {
    seq![BSLASH, b]
}

/// Whether a byte is an ASCII decimal digit.
pub open spec fn is_digit(b: u8) -> bool {
    48 <= b && b <= 57
}

/// The value of a digit string, most significant digit first.
pub open spec fn digits_val(s: Seq<u8>) -> int
    decreases s.len(),
{
    if s.len() == 0 {
        0
    } else {
        digits_val(s.drop_last()) * 10 + (s.last() - 48)
    }
}

/// The number a byte string denotes: defined when the string is a non-empty
/// run of decimal digits whose value fits in a `u64`, undefined otherwise.
pub open spec fn dec_u64_spec(s: Seq<u8>) -> Option<u64> {
    if s.len() == 0 || (exists|i: int| 0 <= i < s.len() && !is_digit(s[i])) || digits_val(s)
        > u64::MAX {
        None
    } else {
        Some(digits_val(s) as u64)
    }
}

pub proof fn lemma_digits_val_nonneg(s: Seq<u8>)
    requires
        forall|i: int| 0 <= i < s.len() ==> is_digit(s[i]),
    ensures
        digits_val(s) >= 0,
    decreases s.len(),
{
    if s.len() > 0 {
        lemma_digits_val_nonneg(s.drop_last());
    }
}

/// Appending digits never shrinks the value.
pub proof fn lemma_digits_val_prefix_le(s: Seq<u8>, a: int, b: int)
    requires
        0 <= a <= b <= s.len(),
        forall|i: int| 0 <= i < s.len() ==> is_digit(s[i]),
    ensures
        digits_val(s.take(a)) <= digits_val(s.take(b)),
    decreases b - a,
{
    if a < b {
        lemma_digits_val_prefix_le(s, a, b - 1);
        let t = s.take(b);
        assert(t.drop_last() =~= s.take(b - 1));
        lemma_digits_val_nonneg(s.take(b - 1));
        assert(digits_val(s.take(b)) == digits_val(s.take(b - 1)) * 10 + (t.last() - 48));
        assert(digits_val(s.take(b - 1)) * 10 >= digits_val(s.take(b - 1))) by (nonlinear_arith)
            requires
                digits_val(s.take(b - 1)) >= 0,
        ;
    }
}

/// Reads a decimal `u64`, returning `None` on an empty string, a non-digit
/// byte, or a value that does not fit.
pub fn parse_u64(s: &[u8]) -> (r: Option<u64>)
    ensures
        r == dec_u64_spec(s@),
{
    if s.len() == 0 {
        return None;
    }
    let mut acc: u64 = 0;
    let mut i: usize = 0;
    while i < s.len()
        invariant
            0 < s.len(),
            i <= s.len(),
            forall|j: int| 0 <= j < i ==> is_digit(s@[j]),
            acc == digits_val(s@.take(i as int)),
        decreases s.len() - i,
    {
        let b = s[i];
        if b < 48 || b > 57 {
            assert(!is_digit(s@[i as int]));
            return None;
        }
        let d = (b - 48) as u64;
        let ghost t = s@.take(i + 1);
        assert(t.drop_last() =~= s@.take(i as int));
        if acc > (u64::MAX - d) / 10 {
            proof {
                lemma_digits_val_nonneg(s@.take(i as int));
                assert(acc * 10 + d > u64::MAX) by (nonlinear_arith)
                    requires
                        acc > (u64::MAX - d) / 10,
                        acc >= 0,
                        0 <= d <= 9,
                ;
                assert(digits_val(t) > u64::MAX);
                if forall|j: int| 0 <= j < s@.len() ==> is_digit(s@[j]) {
                    lemma_digits_val_prefix_le(s@, i + 1, s@.len() as int);
                    assert(s@.take(s@.len() as int) =~= s@);
                    assert(digits_val(s@) > u64::MAX);
                }
            }
            return None;
        }
        proof {
            lemma_digits_val_nonneg(s@.take(i as int));
            assert(acc * 10 + d <= u64::MAX) by (nonlinear_arith)
                requires
                    acc <= (u64::MAX - d) / 10,
                    acc >= 0,
                    0 <= d <= 9,
            ;
        }
        acc = acc * 10 + d;
        i += 1;
    }
    proof {
        assert(s@.take(s@.len() as int) =~= s@);
    }
    Some(acc)
}

/// Lexicographic order on byte strings; a proper prefix comes first.
pub open spec fn lex_le(a: Seq<u8>, b: Seq<u8>) -> bool
    decreases a.len(),
{
    if a.len() == 0 {
        true
    } else if b.len() == 0 {
        false
    } else if a[0] < b[0] {
        true
    } else if a[0] > b[0] {
        false
    } else {
        lex_le(a.skip(1), b.skip(1))
    }
}

/// Any two byte strings are comparable.
pub proof fn lemma_lex_connex(a: Seq<u8>, b: Seq<u8>)
    ensures
        lex_le(a, b) || lex_le(b, a),
    decreases a.len(),
{
    if a.len() > 0 && b.len() > 0 && a[0] == b[0] {
        lemma_lex_connex(a.skip(1), b.skip(1));
    }
}

/// Lexicographic order is transitive.
pub proof fn lemma_lex_trans(a: Seq<u8>, b: Seq<u8>, c: Seq<u8>)
    requires
        lex_le(a, b),
        lex_le(b, c),
    ensures
        lex_le(a, c),
    decreases a.len(),
{
    if a.len() > 0 && b.len() > 0 && c.len() > 0 && a[0] == b[0] && b[0] == c[0] {
        lemma_lex_trans(a.skip(1), b.skip(1), c.skip(1));
    }
}

/// Compares two byte strings lexicographically.
pub fn bytes_le(a: &[u8], b: &[u8]) -> (r: bool)
    ensures
        r == lex_le(a@, b@),
{
    let mut i: usize = 0;
    proof {
        assert(a@.skip(0) =~= a@);
        assert(b@.skip(0) =~= b@);
    }
    while i < a.len() && i < b.len()
        invariant
            i <= a.len(),
            i <= b.len(),
            lex_le(a@, b@) == lex_le(a@.skip(i as int), b@.skip(i as int)),
        decreases a.len() - i,
    {
        let ghost ra = a@.skip(i as int);
        let ghost rb = b@.skip(i as int);
        if a[i] < b[i] {
            assert(ra[0] < rb[0]);
            return true;
        }
        if a[i] > b[i] {
            assert(ra[0] > rb[0]);
            return false;
        }
        proof {
            assert(ra[0] == rb[0]);
            assert(ra.skip(1) =~= a@.skip(i + 1));
            assert(rb.skip(1) =~= b@.skip(i + 1));
        }
        i += 1;
    }
    proof {
        if i >= a.len() {
            assert(a@.skip(i as int).len() == 0);
        } else {
            assert(b@.skip(i as int).len() == 0);
            assert(a@.skip(i as int).len() > 0);
        }
    }
    i >= a.len()
}

} // verus!
