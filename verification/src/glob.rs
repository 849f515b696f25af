use vstd::prelude::*;

verus! {

/// What the glob matcher answers for a pattern and a textual path, both
/// given as bytes. The answer is a function of the two arguments alone.
pub uninterp spec fn glob_matches(pattern: Seq<u8>, path: Seq<u8>) -> bool;

/// Relies on glob_match::glob_match: a pure match of a glob pattern against
/// a path, both UTF-8; a path that is not valid UTF-8 matches nothing, as a
/// path without a textual form matches no pattern.
#[verifier::external_body]
pub fn glob_match_bytes(pattern: &Vec<u8>, path: &Vec<u8>) -> (r: bool)
    ensures
        r == glob_matches(pattern@, path@),
{
    match (core::str::from_utf8(pattern.as_slice()), core::str::from_utf8(path.as_slice())) {
        (Ok(p), Ok(s)) => glob_match::glob_match(p, s),
        _ => false,
    }
}

} // verus!
