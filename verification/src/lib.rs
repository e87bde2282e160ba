use vstd::prelude::*;

pub mod bytes;
pub mod split;
pub mod mods;
pub mod decode;
pub mod aggregate;
pub mod filter;
pub mod pipeline;

verus! {

/// A fatal condition in one mode's pipeline: either the record splitter lost
/// sync with the dump (wrong field count, bad numeric column), or a mods blob
/// did not decode as JSON after unescaping.
#[derive(Clone, Copy, Debug, PartialEq, Eq, Structural)]
pub enum PipelineError {
    MalformedRecord,
    BlobDecodeFailure,
}

/// ASCII codes of the bytes the record grammar treats specially.
pub const BSLASH: u8 = 92;

pub const COMMA: u8 = 44;

pub const LPAREN: u8 = 40;

pub const RPAREN: u8 = 41;

pub const LBRACK: u8 = 91;

pub const RBRACK: u8 = 93;

pub const LBRACE: u8 = 123;

pub const RBRACE: u8 = 125;

pub const SEMI: u8 = 59;

pub const NL: u8 = 10;

pub const CR: u8 = 13;

/// Reverses a vector by moving its elements, so that popping the result
/// hands the original elements out front to back.
pub fn rev_vec<T>(v: Vec<T>) -> (r: Vec<T>)
    ensures
        r@ == v@.reverse(),
{
    let ghost orig = v@;
    let mut input = v;
    let mut r: Vec<T> = Vec::new();
    while input.len() > 0
        invariant
            input@ + r@.reverse() =~= orig,
        decreases input.len(),
    {
        let ghost iv = input@;
        let ghost rv = r@;
        let x = input.pop().unwrap();
        r.push(x);
        proof {
            assert(r@.reverse() =~= seq![x] + rv.reverse());
            assert(input@ + r@.reverse() =~= iv + rv.reverse());
        }
    }
    proof {
        assert(input@ + r@.reverse() =~= r@.reverse());
        assert(r@ =~= orig.reverse());
    }
    r
}

} // verus!
