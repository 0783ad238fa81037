//! Case folding: the lowercase normalization applied uniformly to indexed
//! tokens and to query keywords before comparison.

use vstd::prelude::*;

verus! {

/// The case-folded form of a character sequence. The folding is Unicode
/// lowercasing, whose full definition lives outside this library; contracts
/// speak of it only through this name.
pub uninterp spec fn fold_of(s: Seq<char>) -> Seq<char>;

/// Relies on str::to_lowercase: the returned string is the lowercase
/// equivalent of the input, a function of the input characters alone, and an
/// empty input gives an empty result. The result is handed back as its
/// character sequence.
#[verifier::external_body]
pub fn fold_chars(s: &str) -> (r: Vec<char>)
    ensures
        r@ == fold_of(s@),
        s@.len() == 0 ==> r@.len() == 0,
{
    s.to_lowercase().chars().collect()
}

} // verus!
