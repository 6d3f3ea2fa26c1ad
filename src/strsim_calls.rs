//! Calls into the `strsim` crate.

use vstd::prelude::*;

verus! {

/// The Damerau-Levenshtein distance computed by `strsim::damerau_levenshtein`.
pub uninterp spec fn dl_distance(a: Seq<char>, b: Seq<char>) -> nat;

/// Relies on `strsim::damerau_levenshtein`: the edit distance of two strings
/// counted in characters, which never exceeds the longer length (its
/// normalised form lies in `[0, 1]`).
#[verifier::external_body]
pub(crate) fn damerau_levenshtein(a: &Vec<char>, b: &Vec<char>) -> (r: usize)
    ensures
        r == dl_distance(a@, b@),
        r <= a@.len() || r <= b@.len(),
{
    let a: String = a.iter().collect();
    let b: String = b.iter().collect();
    strsim::damerau_levenshtein(&a, &b)
}

} // verus!
